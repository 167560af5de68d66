use vstd::prelude::*;
use crate::types::Digest;
use crate::selection::{UtxoEntry, total_amount, total_prefixes_fit, fits_i128, sum_entries};

verus! {

/// The decimal digits of `n`, most significant first.
pub open spec fn decimal(n: nat) -> Seq<char>
    decreases n,
{
    if n < 10 {
        seq![digit_char(n)]
    } else {
        decimal(n / 10).push(digit_char(n % 10))
    }
}

pub open spec fn digit_char(d: nat) -> char {
    if d == 0 { '0' } else if d == 1 { '1' } else if d == 2 { '2' } else if d == 3 { '3' }
    else if d == 4 { '4' } else if d == 5 { '5' } else if d == 6 { '6' } else if d == 7 { '7' }
    else if d == 8 { '8' } else { '9' }
}

fn digit_str(d: u64) -> (res: &'static str)
    requires
        d < 10,
    ensures
        res@ == seq![digit_char(d as nat)],
{
    proof {
        reveal_strlit("0");
        reveal_strlit("1");
        reveal_strlit("2");
        reveal_strlit("3");
        reveal_strlit("4");
        reveal_strlit("5");
        reveal_strlit("6");
        reveal_strlit("7");
        reveal_strlit("8");
        reveal_strlit("9");
    }
    if d == 0 { "0" } else if d == 1 { "1" } else if d == 2 { "2" } else if d == 3 { "3" }
    else if d == 4 { "4" } else if d == 5 { "5" } else if d == 6 { "6" } else if d == 7 { "7" }
    else if d == 8 { "8" } else { "9" }
}

/// Write `n` in decimal.
pub fn decimal_string(n: u64) -> (res: String)
    ensures
        res@ == decimal(n as nat),
    decreases n,
{
    if n < 10 {
        let mut s = String::new();
        s.append(digit_str(n));
        assert(s@ =~= decimal(n as nat));
        s
    } else {
        let mut s = decimal_string(n / 10);
        s.append(digit_str(n % 10));
        assert(s@ =~= decimal(n as nat));
        s
    }
}

/// The error returned when a transaction must lustrate some of its inputs
/// and the sender has not accepted that.
#[derive(Debug)]
pub struct LustrationError(pub String);

impl LustrationError {
    /// The text shown for the error.
    pub fn message(&self) -> (res: String)
        ensures
            res@ == "Lustration is required for this transaction: "@ + self.0@,
    {
        let mut s = String::from_str("Lustration is required for this transaction: ");
        s.append(self.0.as_str());
        s
    }
}

/// The explanation carried by a lustration error.
pub open spec fn lustration_text(max_index: u64) -> Seq<char> {
    "All inputs with AOCL ranges at or below "@ + decimal(max_index as nat)
        + " must lustrate. You must accept lustrations before making this transaction."@
}

/// Decide whether a transaction may be sent with respect to lustration.
///
/// A transaction whose inputs must lustrate is refused unless the sender
/// accepted lustration; the error names the highest AOCL leaf index that
/// must lustrate. `max_lustrating_index` is what the tip header reports; it
/// is present whenever lustration is required.
pub fn check_lustration(
    contains_lustrations: bool,
    accept_lustration: bool,
    max_lustrating_index: Option<u64>,
) -> (res: Result<(), LustrationError>)
    requires
        contains_lustrations && !accept_lustration ==> max_lustrating_index is Some,
    ensures
        !(contains_lustrations && !accept_lustration) ==> res is Ok,
        contains_lustrations && !accept_lustration ==> (res matches Err(e)
            && e.0@ == lustration_text(max_lustrating_index->0)),
{
    if contains_lustrations && !accept_lustration {
        let max_index = match max_lustrating_index {
            Some(m) => m,
            None => 0,
        };
        let mut s = String::from_str("All inputs with AOCL ranges at or below ");
        let d = decimal_string(max_index);
        s.append(d.as_str());
        s.append(" must lustrate. You must accept lustrations before making this transaction.");
        return Err(LustrationError(s));
    }
    Ok(())
}

/// Why a change output could not be computed.
#[derive(Clone, Copy, Debug, PartialEq, Eq, Structural)]
pub enum ChangeError {
    /// The difference between inputs and spending does not fit an `i128`.
    Overflow,
}

/// The amount that change must return to the wallet: what the inputs hold
/// beyond the outputs and the fee, when they hold more.
///
/// `outputs_total` is the total of the outputs; returns `Ok(None)` when no
/// change is needed.
pub fn change_amount(
    outputs_total: i128,
    fee: i128,
    inputs: &Vec<UtxoEntry>,
) -> (res: Result<Option<i128>, ChangeError>)
    requires
        fits_i128(outputs_total + fee),
        total_prefixes_fit(inputs@),
    ensures
        outputs_total + fee >= total_amount(inputs@) ==> res == Ok::<Option<i128>, ChangeError>(None),
        outputs_total + fee < total_amount(inputs@) && fits_i128(total_amount(inputs@) - (outputs_total + fee))
            ==> res == Ok::<Option<i128>, ChangeError>(Some((total_amount(inputs@) - (outputs_total + fee)) as i128)),
        outputs_total + fee < total_amount(inputs@) && !fits_i128(total_amount(inputs@) - (outputs_total + fee))
            ==> res == Err::<Option<i128>, ChangeError>(ChangeError::Overflow),
{
    let spend = outputs_total + fee;
    let spendable = sum_entries(inputs);
    if spend < spendable {
        match spendable.checked_sub(spend) {
            Some(c) => Ok(Some(c)),
            None => Err(ChangeError::Overflow),
        }
    } else {
        Ok(None)
    }
}

/// With change, a transaction balances: the inputs hold exactly the outputs,
/// the fee and the change, and the change is positive.
pub proof fn law_change_balances(outputs_total: i128, fee: i128, inputs: Seq<UtxoEntry>, change: i128)
    requires
        outputs_total + fee < total_amount(inputs),
        change == total_amount(inputs) - (outputs_total + fee),
    ensures
        total_amount(inputs) == outputs_total + fee + change,
        change > 0,
{
}

/// Whether the output is announced on chain or handed over off chain.
#[derive(Clone, Copy, Debug, PartialEq, Eq, Structural)]
pub enum UtxoNotificationMedium {
    OnChain,
    OffChain,
}

/// The position of the first key whose lock-script hash is `lock`.
pub open spec fn first_key_for(keys: Seq<Digest>, lock: Digest) -> Option<int> {
    if keys.contains(lock) {
        Some(choose|i: int| 0 <= i < keys.len() && keys[i] == lock && forall|j: int| 0 <= j < i ==> keys[j] != lock)
    } else {
        None
    }
}

/// Find the first of the wallet's keys that can unlock a UTXO: the first key
/// whose lock-script hash equals the UTXO's.
///
/// `keys` holds the lock-script hashes of all known keys.
pub fn find_spending_key_for_utxo(keys: &Vec<Digest>, lock: Digest) -> (res: Option<usize>)
    ensures
        res matches Some(i) ==> i < keys@.len() && keys@[i as int] == lock
            && forall|j: int| 0 <= j < i ==> keys@[j] != lock,
        res is None <==> !keys@.contains(lock),
{
    let mut i: usize = 0;
    while i < keys.len()
        invariant
            i <= keys@.len(),
            forall|j: int| 0 <= j < i ==> keys@[j] != lock,
        decreases keys@.len() - i,
    {
        if keys[i] == lock {
            return Some(i);
        }
        i = i + 1;
    }
    None
}

/// Whether one of the wallet's keys can unlock a UTXO with lock-script hash
/// `lock`.
pub fn can_unlock(keys: &Vec<Digest>, lock: Digest) -> (res: bool)
    ensures
        res == keys@.contains(lock),
{
    find_spending_key_for_utxo(keys, lock).is_some()
}

/// The notification medium of an output: outputs the wallet can unlock itself
/// use the medium for owned UTXOs, all others the one for unowned UTXOs.
pub fn output_notification_medium(
    keys: &Vec<Digest>,
    lock: Digest,
    owned: UtxoNotificationMedium,
    unowned: UtxoNotificationMedium,
) -> (res: (UtxoNotificationMedium, bool))
    ensures
        res.1 == keys@.contains(lock),
        res.0 == if keys@.contains(lock) { owned } else { unowned },
{
    let mine = can_unlock(keys, lock);
    if mine {
        (owned, true)
    } else {
        (unowned, false)
    }
}

/// The outputs that the wallet must expect to receive: the off-chain ones
/// that one of its keys can unlock, each with the first such key.
pub open spec fn expected_outputs(outputs: Seq<(bool, Digest)>, keys: Seq<Digest>) -> Seq<(int, int)>
    decreases outputs.len(),
{
    if outputs.len() == 0 {
        Seq::empty()
    } else {
        let prev = expected_outputs(outputs.drop_last(), keys);
        let o = outputs.last();
        if o.0 && keys.contains(o.1) {
            prev.push(((outputs.len() - 1) as int, first_key_for(keys, o.1)->0))
        } else {
            prev
        }
    }
}

/// `k` is the position of the first key whose lock-script hash is `lock`.
pub open spec fn is_first_key(keys: Seq<Digest>, lock: Digest, k: int) -> bool {
    &&& 0 <= k < keys.len()
    &&& keys[k] == lock
    &&& forall|j: int| 0 <= j < k ==> keys[j] != lock
}

proof fn lemma_first_key_for(keys: Seq<Digest>, lock: Digest)
    ensures
        first_key_for(keys, lock) is None <==> !keys.contains(lock),
        first_key_for(keys, lock) matches Some(k) ==> is_first_key(keys, lock, k),
        forall|k: int| #[trigger] is_first_key(keys, lock, k) ==> first_key_for(keys, lock) == Some(k),
    decreases keys.len(),
{
    if keys.contains(lock) {
        if keys.len() > 0 && keys[0] == lock {
            assert(is_first_key(keys, lock, 0));
        } else {
            let rest = keys.drop_first();
            let i = choose|i: int| 0 <= i < keys.len() && keys[i] == lock;
            assert(rest[i - 1] == lock);
            lemma_first_key_for(rest, lock);
            let k = first_key_for(rest, lock)->0;
            assert forall|j: int| 0 <= j < k + 1 implies keys[j] != lock by {
                if j > 0 {
                    assert(keys[j] == rest[j - 1]);
                }
            }
            assert(is_first_key(keys, lock, k + 1));
        }
        let c = first_key_for(keys, lock)->0;
        assert(is_first_key(keys, lock, c));
        assert forall|k: int| #[trigger] is_first_key(keys, lock, k) implies first_key_for(keys, lock) == Some(k) by {
            if k < c {
                assert(keys[k] != lock);
            } else if k > c {
                assert(keys[c] != lock);
            }
        }
    } else {
        assert forall|k: int| #[trigger] is_first_key(keys, lock, k) implies first_key_for(keys, lock) == Some(k) by {
            assert(keys.contains(lock));
        }
    }
}

/// The number of outputs that are notified off chain to one of the
/// wallet's own keys.
pub open spec fn num_owned_offchain(outputs: Seq<(bool, Digest)>, keys: Seq<Digest>) -> nat {
    outputs.filter(|o: (bool, Digest)| o.0 && keys.contains(o.1)).len()
}

/// The wallet expects exactly its own off-chain outputs: one entry per
/// output that is notified off chain and that one of its keys unlocks, in
/// output order, pairing the output's position with the first such key, and
/// nothing else.
pub proof fn law_expected_outputs(outputs: Seq<(bool, Digest)>, keys: Seq<Digest>)
    ensures
        expected_outputs(outputs, keys).len() == num_owned_offchain(outputs, keys),
        forall|k: int| 0 <= k < expected_outputs(outputs, keys).len() ==> {
            let e = #[trigger] expected_outputs(outputs, keys)[k];
            &&& 0 <= e.0 < outputs.len()
            &&& outputs[e.0].0
            &&& is_first_key(keys, outputs[e.0].1, e.1)
        },
        forall|k1: int, k2: int| 0 <= k1 < k2 < expected_outputs(outputs, keys).len()
            ==> (#[trigger] expected_outputs(outputs, keys)[k1]).0 < (#[trigger] expected_outputs(outputs, keys)[k2]).0,
        forall|i: int, kk: int| 0 <= i < outputs.len() && outputs[i].0 && #[trigger] is_first_key(keys, outputs[i].1, kk)
            ==> expected_outputs(outputs, keys).contains((i, kk)),
    decreases outputs.len(),
{
    let r = expected_outputs(outputs, keys);
    if outputs.len() > 0 {
        let os = outputs.drop_last();
        let p = expected_outputs(os, keys);
        law_expected_outputs(os, keys);
        let last = outputs.last();
        lemma_first_key_for(keys, last.1);
        let pred = |o: (bool, Digest)| o.0 && keys.contains(o.1);
        assert(outputs =~= os.push(last));
        os.lemma_filter_push(last, pred);
        assert forall|i: int| 0 <= i < os.len() implies #[trigger] os[i] == outputs[i] by {}
        assert forall|k: int| 0 <= k < p.len() implies #[trigger] r[k] == p[k] by {}
        assert forall|k: int| 0 <= k < r.len() implies ({
            let e = #[trigger] r[k];
            &&& 0 <= e.0 < outputs.len()
            &&& outputs[e.0].0
            &&& is_first_key(keys, outputs[e.0].1, e.1)
        }) by {
            if k < p.len() {
                assert(r[k] == p[k]);
                assert(os[p[k].0] == outputs[p[k].0]);
            }
        }
        assert forall|k1: int, k2: int| 0 <= k1 < k2 < r.len() implies (#[trigger] r[k1]).0 < (#[trigger] r[k2]).0 by {
            if k2 < p.len() {
                assert(r[k1] == p[k1] && r[k2] == p[k2]);
            } else {
                assert(r[k1] == p[k1]);
            }
        }
        assert forall|i: int, kk: int| 0 <= i < outputs.len() && outputs[i].0 && #[trigger] is_first_key(keys, outputs[i].1, kk)
            implies r.contains((i, kk)) by {
            if i < os.len() {
                assert(os[i] == outputs[i]);
                assert(is_first_key(keys, os[i].1, kk));
                assert(p.contains((i, kk)));
                let k = choose|k: int| 0 <= k < p.len() && p[k] == (i, kk);
                assert(r[k] == (i, kk));
            } else {
                assert(outputs[i] == last);
                assert(keys.contains(last.1)) by {
                    assert(keys[kk] == last.1);
                }
                assert(first_key_for(keys, last.1) == Some(kk));
                assert(r[r.len() - 1] == (i, kk));
            }
        }
    }
}

/// Pick the outputs that the wallet expects to receive.
///
/// `outputs[i]` says whether output `i` is notified off chain and gives its
/// lock-script hash; `keys` holds the lock-script hashes of the wallet's
/// keys. Returns pairs (output position, key position).
pub fn extract_expected_utxos(outputs: &Vec<(bool, Digest)>, keys: &Vec<Digest>) -> (res: Vec<(usize, usize)>)
    ensures
        res@.map_values(|p: (usize, usize)| (p.0 as int, p.1 as int)) == expected_outputs(outputs@, keys@),
        res@.len() == num_owned_offchain(outputs@, keys@),
        forall|i: int, kk: int| 0 <= i < outputs@.len() && outputs@[i].0 && #[trigger] is_first_key(keys@, outputs@[i].1, kk)
            ==> res@.map_values(|p: (usize, usize)| (p.0 as int, p.1 as int)).contains((i, kk)),
{
    proof {
        law_expected_outputs(outputs@, keys@);
    }
    let mut res: Vec<(usize, usize)> = Vec::new();
    let mut i: usize = 0;
    while i < outputs.len()
        invariant
            i <= outputs@.len(),
            res@.map_values(|p: (usize, usize)| (p.0 as int, p.1 as int)) == expected_outputs(outputs@.take(i as int), keys@),
        decreases outputs@.len() - i,
    {
        let (offchain, lock) = outputs[i];
        proof {
            assert(outputs@.take(i as int + 1).drop_last() =~= outputs@.take(i as int));
        }
        if offchain {
            match find_spending_key_for_utxo(keys, lock) {
                Some(k) => {
                    proof {
                        let fk = first_key_for(keys@, lock);
                        assert(keys@.contains(lock));
                        let c = choose|c: int| 0 <= c < keys@.len() && keys@[c] == lock && forall|j: int| 0 <= j < c ==> keys@[j] != lock;
                        if c < k {
                        } else if c > k {
                            assert(keys@[k as int] != lock);
                        }
                        assert(fk->0 == k);
                    }
                    let ghost before = res@;
                    res.push((i, k));
                    assert(res@.map_values(|p: (usize, usize)| (p.0 as int, p.1 as int)) =~= before.map_values(
                        |p: (usize, usize)| (p.0 as int, p.1 as int),
                    ).push((i as int, k as int)));
                },
                None => {},
            }
        }
        i = i + 1;
    }
    assert(outputs@.take(outputs@.len() as int) =~= outputs@);
    res
}

/// Whether the membership proofs the node returned belong to its current
/// tip: the proofs' tip height equals the tip header's height. When they do
/// not, the wallet asks for the proofs and the header again.
pub fn proofs_match_tip(proofs_tip_height: u64, header_height: u64) -> (res: bool)
    ensures
        res == (proofs_tip_height == header_height),
{
    proofs_tip_height == header_height
}

/// Why the chosen inputs could not be unlocked.
#[derive(Debug, PartialEq, Eq)]
pub enum UnlockError {
    /// None of the wallet's keys can unlock one of the inputs.
    NoSpendingKey,
    /// The node's membership-proof data for an input could not be turned
    /// into a proof; the detail is the error that the extraction gave.
    BadProofData(String),
}

/// The text of an unlock error.
pub open spec fn unlock_error_text(e: UnlockError) -> Seq<char> {
    match e {
        UnlockError::NoSpendingKey => "No spending key found for utxo"@,
        UnlockError::BadProofData(detail) => "Server returned bad mutator set membership proof recovery data: "@ + detail@,
    }
}

impl UnlockError {
    /// The text shown for the error.
    pub fn message(&self) -> (res: String)
        ensures
            res@ == unlock_error_text(*self),
    {
        match self {
            UnlockError::NoSpendingKey => String::from_str("No spending key found for utxo"),
            UnlockError::BadProofData(detail) => {
                let mut s = String::from_str("Server returned bad mutator set membership proof recovery data: ");
                s.append(detail.as_str());
                s
            },
        }
    }
}

/// The outcome of unlocking the first `n` inputs, in order: for each, the
/// position of the first key that unlocks it, or the first failure: a
/// missing key, checked before the input's proof, or proof data that could
/// not be used.
pub open spec fn unlock_upto(locks: Seq<Digest>, keys: Seq<Digest>, errs: Seq<Option<String>>, n: nat) -> Result<Seq<int>, UnlockError>
    decreases n,
{
    if n == 0 {
        Ok(Seq::empty())
    } else {
        match unlock_upto(locks, keys, errs, (n - 1) as nat) {
            Err(e) => Err(e),
            Ok(ks) => {
                let i = n - 1;
                if !keys.contains(locks[i]) {
                    Err(UnlockError::NoSpendingKey)
                } else if errs[i] is Some {
                    Err(UnlockError::BadProofData(errs[i]->0))
                } else {
                    Ok(ks.push(first_key_for(keys, locks[i])->0))
                }
            },
        }
    }
}

/// The number of inputs paired with a proof.
pub open spec fn paired_len(locks: Seq<Digest>, errs: Seq<Option<String>>) -> nat {
    if locks.len() <= errs.len() { locks.len() } else { errs.len() }
}

proof fn lemma_unlock_err_stays(locks: Seq<Digest>, keys: Seq<Digest>, errs: Seq<Option<String>>, i: nat, n: nat)
    requires
        i <= n,
        unlock_upto(locks, keys, errs, i) is Err,
    ensures
        unlock_upto(locks, keys, errs, n) == unlock_upto(locks, keys, errs, i),
    decreases n - i,
{
    if i < n {
        lemma_unlock_err_stays(locks, keys, errs, i, (n - 1) as nat);
    }
}

proof fn lemma_first_key_is(keys: Seq<Digest>, lock: Digest, k: int)
    requires
        0 <= k < keys.len(),
        keys[k] == lock,
        forall|j: int| 0 <= j < k ==> keys[j] != lock,
    ensures
        first_key_for(keys, lock) == Some(k),
{
    assert(keys.contains(lock));
    let c = choose|c: int| 0 <= c < keys.len() && keys[c] == lock && forall|j: int| 0 <= j < c ==> keys[j] != lock;
    if c < k {
    } else if c > k {
        assert(keys[k] != lock);
    }
}

/// Unlock the chosen inputs: pair each input, in order, with the proof the
/// node returned for it (extra inputs or proofs are left out), find the first
/// key that unlocks it and check its proof data.
///
/// `locks[i]` is the lock-script hash of input `i`, `keys` the lock-script
/// hashes of all known keys, and `proof_errors[i]` the error that extracting
/// the proof of input `i` gave, if any. Returns the key position for each
/// input, or the first failure.
pub fn unlock_inputs(locks: &Vec<Digest>, keys: &Vec<Digest>, proof_errors: &Vec<Option<String>>) -> (res: Result<Vec<usize>, UnlockError>)
    ensures
        res matches Ok(ks) ==> unlock_upto(locks@, keys@, proof_errors@, paired_len(locks@, proof_errors@))
            == Ok::<Seq<int>, UnlockError>(ks@.map_values(|k: usize| k as int)),
        res matches Err(e) ==> unlock_upto(locks@, keys@, proof_errors@, paired_len(locks@, proof_errors@))
            == Err::<Seq<int>, UnlockError>(e),
{
    let n: usize = if locks.len() <= proof_errors.len() { locks.len() } else { proof_errors.len() };
    let mut res: Vec<usize> = Vec::new();
    let mut i: usize = 0;
    assert(res@.map_values(|k: usize| k as int) =~= Seq::<int>::empty());
    while i < n
        invariant
            n == paired_len(locks@, proof_errors@),
            n <= locks@.len(),
            n <= proof_errors@.len(),
            i <= n,
            unlock_upto(locks@, keys@, proof_errors@, i as nat) == Ok::<Seq<int>, UnlockError>(res@.map_values(|k: usize| k as int)),
        decreases n - i,
    {
        let lock = locks[i];
        match find_spending_key_for_utxo(keys, lock) {
            None => {
                proof {
                    lemma_unlock_err_stays(locks@, keys@, proof_errors@, (i + 1) as nat, n as nat);
                }
                return Err(UnlockError::NoSpendingKey);
            },
            Some(k) => {
                match &proof_errors[i] {
                    Some(detail) => {
                        let d = detail.clone();
                        proof {
                            lemma_unlock_err_stays(locks@, keys@, proof_errors@, (i + 1) as nat, n as nat);
                        }
                        return Err(UnlockError::BadProofData(d));
                    },
                    None => {
                        proof {
                            lemma_first_key_is(keys@, lock, k as int);
                        }
                        let ghost before = res@;
                        res.push(k);
                        assert(res@.map_values(|k: usize| k as int) =~= before.map_values(|k: usize| k as int).push(k as int));
                    },
                }
            },
        }
        i = i + 1;
    }
    Ok(res)
}

} // verus!
