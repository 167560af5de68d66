use vstd::prelude::*;
use crate::types::Digest;

verus! {

/// The absolute index set of a UTXO in the mutator set: the positions of the
/// sliding-window Bloom filter that spending it sets.
///
/// Two pieces of recovery data describe the same UTXO exactly when their
/// index sets are equal.
#[derive(Debug)]
pub struct AbsoluteIndexSet {
    pub indices: Vec<u128>,
}

impl View for AbsoluteIndexSet {
    type V = Seq<u128>;

    open spec fn view(&self) -> Seq<u128> {
        self.indices@
    }
}

/// Whether two index sets are equal.
pub fn same_index_set(a: &AbsoluteIndexSet, b: &AbsoluteIndexSet) -> (res: bool)
    ensures
        res == (a@ == b@),
{
    if a.indices.len() != b.indices.len() {
        return false;
    }
    let mut i: usize = 0;
    while i < a.indices.len()
        invariant
            a@.len() == b@.len(),
            i <= a@.len(),
            forall|j: int| 0 <= j < i ==> a@[j] == b@[j],
        decreases a@.len() - i,
    {
        if a.indices[i] != b.indices[i] {
            return false;
        }
        i = i + 1;
    }
    assert(a@ =~= b@);
    true
}

/// The views of a sequence of index sets.
pub open spec fn set_views(keys: Seq<AbsoluteIndexSet>) -> Seq<Seq<u128>> {
    keys.map_values(|k: AbsoluteIndexSet| k@)
}

/// Whether an index set equal to `key` occurs in `keys`.
pub fn contains_index_set(keys: &Vec<AbsoluteIndexSet>, key: &AbsoluteIndexSet) -> (res: bool)
    ensures
        res == set_views(keys@).contains(key@),
{
    let mut i: usize = 0;
    while i < keys.len()
        invariant
            i <= keys@.len(),
            forall|j: int| 0 <= j < i ==> keys@[j]@ != key@,
        decreases keys@.len() - i,
    {
        if same_index_set(&keys[i], key) {
            assert(set_views(keys@)[i as int] == key@);
            return true;
        }
        i = i + 1;
    }
    proof {
        if set_views(keys@).contains(key@) {
            let j = choose|j: int| 0 <= j < set_views(keys@).len() && set_views(keys@)[j] == key@;
            assert(keys@[j]@ == key@);
        }
    }
    false
}

/// Whether `d` occurs in `ds`.
pub fn contains_digest(ds: &Vec<Digest>, d: Digest) -> (res: bool)
    ensures
        res == ds@.contains(d),
{
    let mut i: usize = 0;
    while i < ds.len()
        invariant
            i <= ds@.len(),
            forall|j: int| 0 <= j < i ==> ds@[j] != d,
        decreases ds@.len() - i,
    {
        if ds[i] == d {
            return true;
        }
        i = i + 1;
    }
    false
}

/// The items whose flag is set, in their order.
pub open spec fn keep_where<T>(items: Seq<T>, flags: Seq<bool>) -> Seq<T>
    decreases items.len(),
{
    if items.len() == 0 {
        Seq::empty()
    } else if flags[items.len() - 1] {
        keep_where(items.drop_last(), flags).push(items.last())
    } else {
        keep_where(items.drop_last(), flags)
    }
}

proof fn lemma_keep_where_take<T>(items: Seq<T>, flags: Seq<bool>, i: int)
    requires
        0 <= i < items.len(),
    ensures
        keep_where(items.take(i + 1), flags) == if flags[i] {
            keep_where(items.take(i), flags).push(items[i])
        } else {
            keep_where(items.take(i), flags)
        },
{
    assert(items.take(i + 1).drop_last() =~= items.take(i));
}

/// Keep the items whose flag is set, in their order.
pub fn keep_flagged<T>(items: Vec<T>, flags: &Vec<bool>) -> (res: Vec<T>)
    requires
        items@.len() == flags@.len(),
    ensures
        res@ == keep_where(items@, flags@),
{
    let ghost all = items@;
    let mut items = items;
    let mut res: Vec<T> = Vec::new();
    let n = items.len();
    let mut i: usize = 0;
    while i < n
        invariant
            n == all.len(),
            n == flags@.len(),
            i <= n,
            items@ == all.skip(i as int),
            res@ == keep_where(all.take(i as int), flags@),
        decreases n - i,
    {
        let x = items.remove(0);
        proof {
            assert(x == all[i as int]);
            assert(items@ =~= all.skip(i as int + 1));
            lemma_keep_where_take(all, flags@, i as int);
        }
        if flags[i] {
            res.push(x);
        }
        i = i + 1;
    }
    assert(all.take(n as int) =~= all);
    res
}

/// `keys[i]` is the first occurrence of its index set in `keys`.
pub open spec fn is_first_occurrence(keys: Seq<AbsoluteIndexSet>, i: int) -> bool {
    forall|j: int| 0 <= j < i ==> #[trigger] keys[j]@ != keys[i]@
}

/// For each index set, whether it is the first of its kind.
pub fn first_occurrence_flags(keys: &Vec<AbsoluteIndexSet>) -> (res: Vec<bool>)
    ensures
        res@.len() == keys@.len(),
        forall|i: int| 0 <= i < keys@.len() ==> res@[i] == is_first_occurrence(keys@, i),
{
    let mut res: Vec<bool> = Vec::new();
    let n = keys.len();
    let mut i: usize = 0;
    while i < n
        invariant
            n == keys@.len(),
            i <= n,
            res@.len() == i,
            forall|k: int| 0 <= k < i ==> res@[k] == is_first_occurrence(keys@, k),
        decreases n - i,
    {
        let mut first = true;
        let mut j: usize = 0;
        while j < i
            invariant
                i < n,
                n == keys@.len(),
                j <= i,
                first == (forall|l: int| 0 <= l < j ==> #[trigger] keys@[l]@ != keys@[i as int]@),
            decreases i - j,
        {
            if same_index_set(&keys[j], &keys[i]) {
                first = false;
            }
            j = j + 1;
        }
        res.push(first);
        i = i + 1;
    }
    res
}

/// Drop repeated recovery data, keeping the first entry for each UTXO, so
/// that an entry given twice is not counted twice.
///
/// `keys[i]` is the absolute index set of `items[i]`.
pub fn deduplicate_recovery_data<T>(items: Vec<T>, keys: &Vec<AbsoluteIndexSet>) -> (res: Vec<T>)
    requires
        items@.len() == keys@.len(),
    ensures
        res@ == keep_where(items@, Seq::new(keys@.len(), |i: int| is_first_occurrence(keys@, i))),
{
    let flags = first_occurrence_flags(keys);
    assert(flags@ =~= Seq::new(keys@.len(), |i: int| is_first_occurrence(keys@, i)));
    keep_flagged(items, &flags)
}

/// Keep the UTXOs that the node reports as not spent.
///
/// `spent[i]` tells whether `items[i]` has been spent; the two lists must have
/// the same length.
pub fn filter_unspent_utxos<T>(items: Vec<T>, spent: &Vec<bool>) -> (res: Vec<T>)
    requires
        items@.len() == spent@.len(),
    ensures
        res@ == keep_where(items@, spent@.map_values(|b: bool| !b)),
{
    let mut flags: Vec<bool> = Vec::new();
    let mut i: usize = 0;
    while i < spent.len()
        invariant
            i <= spent@.len(),
            flags@ == spent@.take(i as int).map_values(|b: bool| !b),
        decreases spent@.len() - i,
    {
        flags.push(!spent[i]);
        i = i + 1;
        assert(flags@ =~= spent@.take(i as int).map_values(|b: bool| !b));
    }
    assert(spent@.take(spent@.len() as int) =~= spent@);
    keep_flagged(items, &flags)
}

/// Keep the incoming UTXOs whose receiver preimage belongs to one of the
/// wallet's keys.
///
/// `preimages[i]` is the receiver preimage of `items[i]`; `known` holds the
/// privacy preimages of all keys the wallet tracks.
pub fn have_matching_keys<T>(items: Vec<T>, preimages: &Vec<Digest>, known: &Vec<Digest>) -> (res: Vec<T>)
    requires
        items@.len() == preimages@.len(),
    ensures
        res@ == keep_where(items@, preimages@.map_values(|d: Digest| known@.contains(d))),
{
    let mut flags: Vec<bool> = Vec::new();
    let mut i: usize = 0;
    while i < preimages.len()
        invariant
            i <= preimages@.len(),
            flags@ == preimages@.take(i as int).map_values(|d: Digest| known@.contains(d)),
        decreases preimages@.len() - i,
    {
        flags.push(contains_digest(known, preimages[i]));
        i = i + 1;
        assert(flags@ =~= preimages@.take(i as int).map_values(|d: Digest| known@.contains(d)));
    }
    assert(preimages@.take(preimages@.len() as int) =~= preimages@);
    keep_flagged(items, &flags)
}

/// Keep the items whose index set does (`wanted == true`) or does not
/// (`wanted == false`) occur in `set`.
pub fn keep_by_membership<T>(
    items: Vec<T>,
    keys: &Vec<AbsoluteIndexSet>,
    set: &Vec<AbsoluteIndexSet>,
    wanted: bool,
) -> (res: Vec<T>)
    requires
        items@.len() == keys@.len(),
    ensures
        res@ == keep_where(
            items@,
            keys@.map_values(|k: AbsoluteIndexSet| set_views(set@).contains(k@) == wanted),
        ),
{
    let mut flags: Vec<bool> = Vec::new();
    let mut i: usize = 0;
    while i < keys.len()
        invariant
            i <= keys@.len(),
            flags@ == keys@.take(i as int).map_values(
                |k: AbsoluteIndexSet| set_views(set@).contains(k@) == wanted,
            ),
        decreases keys@.len() - i,
    {
        let found = contains_index_set(set, &keys[i]);
        flags.push(found == wanted);
        i = i + 1;
        assert(flags@ =~= keys@.take(i as int).map_values(
            |k: AbsoluteIndexSet| set_views(set@).contains(k@) == wanted,
        ));
    }
    assert(keys@.take(keys@.len() as int) =~= keys@);
    keep_flagged(items, &flags)
}

/// Return the incoming UTXOs that the wallet has not claimed yet: those whose
/// index set is not among `claimed`.
pub fn not_yet_claimed<T>(items: Vec<T>, keys: &Vec<AbsoluteIndexSet>, claimed: &Vec<AbsoluteIndexSet>) -> (res: Vec<T>)
    requires
        items@.len() == keys@.len(),
    ensures
        res@ == keep_where(
            items@,
            keys@.map_values(|k: AbsoluteIndexSet| set_views(claimed@).contains(k@) == false),
        ),
{
    keep_by_membership(items, keys, claimed, false)
}

/// Return the wallet's UTXOs that a block spends: those whose index set is
/// among the index sets of the block's inputs.
pub fn scan_for_spent_utxos<T>(items: Vec<T>, keys: &Vec<AbsoluteIndexSet>, block_inputs: &Vec<AbsoluteIndexSet>) -> (res: Vec<T>)
    requires
        items@.len() == keys@.len(),
    ensures
        res@ == keep_where(
            items@,
            keys@.map_values(|k: AbsoluteIndexSet| set_views(block_inputs@).contains(k@) == true),
        ),
{
    keep_by_membership(items, keys, block_inputs, true)
}

/// The flags that deduplication computes for `keys`.
pub open spec fn dedup_flags(keys: Seq<AbsoluteIndexSet>) -> Seq<bool> {
    Seq::new(keys.len(), |i: int| is_first_occurrence(keys, i))
}

/// The index sets that survive deduplication.
pub open spec fn dedup_keys(keys: Seq<AbsoluteIndexSet>) -> Seq<AbsoluteIndexSet> {
    keep_where(keys, dedup_flags(keys))
}

/// `d` is a deduplication of the first `k` index sets of `keys`: its index
/// sets are pairwise distinct, each is one of those `k`, and each of those `k`
/// occurs in it.
pub open spec fn dedup_ok(keys: Seq<AbsoluteIndexSet>, d: Seq<AbsoluteIndexSet>, k: int) -> bool {
    &&& forall|a: int, b: int| 0 <= a < b < d.len() ==> #[trigger] d[a]@ != #[trigger] d[b]@
    &&& forall|a: int| #![trigger d[a]] 0 <= a < d.len() ==> exists|j: int| #![trigger keys[j]] 0 <= j < k && keys[j]@ == d[a]@
    &&& forall|j: int| #![trigger keys[j]] 0 <= j < k ==> exists|a: int| #![trigger d[a]] 0 <= a < d.len() && d[a]@ == keys[j]@
}

proof fn lemma_dedup_step_first(keys: Seq<AbsoluteIndexSet>, prev: Seq<AbsoluteIndexSet>, k: int)
    requires
        1 <= k <= keys.len(),
        dedup_ok(keys, prev, k - 1),
        is_first_occurrence(keys, k - 1),
    ensures
        dedup_ok(keys, prev.push(keys[k - 1]), k),
{
    let d = prev.push(keys[k - 1]);
    assert forall|a: int, b: int| 0 <= a < b < d.len() implies #[trigger] d[a]@ != #[trigger] d[b]@ by {
        if b == d.len() - 1 {
            let j = choose|j: int| #![trigger keys[j]] 0 <= j < k - 1 && keys[j]@ == prev[a]@;
            assert(keys[j]@ != keys[k - 1]@);
        } else {
            assert(d[a] == prev[a]);
            assert(d[b] == prev[b]);
        }
    }
    assert forall|a: int| #![trigger d[a]] 0 <= a < d.len() implies exists|j: int| #![trigger keys[j]] 0 <= j < k && keys[j]@ == d[a]@ by {
        if a == d.len() - 1 {
            assert(keys[k - 1]@ == d[a]@);
        } else {
            assert(d[a] == prev[a]);
            let j = choose|j: int| #![trigger keys[j]] 0 <= j < k - 1 && keys[j]@ == prev[a]@;
            assert(keys[j]@ == d[a]@);
        }
    }
    assert forall|j: int| #![trigger keys[j]] 0 <= j < k implies exists|a: int| #![trigger d[a]] 0 <= a < d.len() && d[a]@ == keys[j]@ by {
        if j == k - 1 {
            assert(d[d.len() - 1]@ == keys[j]@);
        } else {
            let a = choose|a: int| #![trigger prev[a]] 0 <= a < prev.len() && prev[a]@ == keys[j]@;
            assert(d[a] == prev[a]);
        }
    }
}

proof fn lemma_dedup_step_repeat(keys: Seq<AbsoluteIndexSet>, prev: Seq<AbsoluteIndexSet>, k: int)
    requires
        1 <= k <= keys.len(),
        dedup_ok(keys, prev, k - 1),
        !is_first_occurrence(keys, k - 1),
    ensures
        dedup_ok(keys, prev, k),
{
    assert forall|a: int| #![trigger prev[a]] 0 <= a < prev.len() implies exists|j: int| #![trigger keys[j]] 0 <= j < k && keys[j]@ == prev[a]@ by {
        let j = choose|j: int| #![trigger keys[j]] 0 <= j < k - 1 && keys[j]@ == prev[a]@;
        assert(keys[j]@ == prev[a]@);
    }
    assert forall|j: int| #![trigger keys[j]] 0 <= j < k implies exists|a: int| #![trigger prev[a]] 0 <= a < prev.len() && prev[a]@ == keys[j]@ by {
        if j == k - 1 {
            let l = choose|l: int| 0 <= l < k - 1 && #[trigger] keys[l]@ == keys[k - 1]@;
            let a = choose|a: int| #![trigger prev[a]] 0 <= a < prev.len() && prev[a]@ == keys[l]@;
            assert(prev[a]@ == keys[j]@);
        } else {
            let a = choose|a: int| #![trigger prev[a]] 0 <= a < prev.len() && prev[a]@ == keys[j]@;
            assert(prev[a]@ == keys[j]@);
        }
    }
}

proof fn lemma_dedup_prefix(keys: Seq<AbsoluteIndexSet>, k: int)
    requires
        0 <= k <= keys.len(),
    ensures
        dedup_ok(keys, keep_where(keys.take(k), dedup_flags(keys)), k),
    decreases k,
{
    if k == 0 {
        assert(keys.take(0) =~= Seq::<AbsoluteIndexSet>::empty());
    } else {
        lemma_dedup_prefix(keys, k - 1);
        lemma_keep_where_take(keys, dedup_flags(keys), k - 1);
        let prev = keep_where(keys.take(k - 1), dedup_flags(keys));
        if is_first_occurrence(keys, k - 1) {
            lemma_dedup_step_first(keys, prev, k);
        } else {
            lemma_dedup_step_repeat(keys, prev, k);
        }
    }
}

/// After deduplication no UTXO occurs twice, and every UTXO of the input
/// still occurs: the surviving index sets are pairwise distinct, each comes
/// from the input, and each input index set survives.
pub proof fn law_dedup_distinct_and_complete(keys: Seq<AbsoluteIndexSet>)
    ensures
        dedup_ok(keys, dedup_keys(keys), keys.len() as int),
{
    assert(keys.take(keys.len() as int) =~= keys);
    assert(keep_where(keys.take(keys.len() as int), dedup_flags(keys)) == dedup_keys(keys));
    lemma_dedup_prefix(keys, keys.len() as int);
}

proof fn lemma_keep_all<T>(items: Seq<T>, flags: Seq<bool>)
    requires
        items.len() <= flags.len(),
        forall|i: int| 0 <= i < items.len() ==> flags[i],
    ensures
        keep_where(items, flags) == items,
    decreases items.len(),
{
    if items.len() > 0 {
        lemma_keep_all(items.drop_last(), flags);
        assert(items.drop_last().push(items.last()) =~= items);
    }
}

/// Deduplication is idempotent: deduplicating an already deduplicated list
/// changes nothing.
pub proof fn law_dedup_idempotent(keys: Seq<AbsoluteIndexSet>)
    ensures
        dedup_keys(dedup_keys(keys)) == dedup_keys(keys),
{
    let d = dedup_keys(keys);
    law_dedup_distinct_and_complete(keys);
    assert forall|i: int| 0 <= i < d.len() implies dedup_flags(d)[i] by {
        assert forall|j: int| 0 <= j < i implies #[trigger] d[j]@ != d[i]@ by {}
    }
    lemma_keep_all(d, dedup_flags(d));
}

} // verus!
