use vstd::prelude::*;
use rand::seq::SliceRandom;

verus! {

/// How the wallet orders its spendable UTXOs before picking inputs.
#[derive(Clone, Copy, Debug, PartialEq, Eq, Structural)]
pub enum InputSelectionRule {
    Minimum,
    Maximum,
    Oldest,
    Newest,
    Random,
}

/// Whether two string slices hold the same characters.
pub fn str_eq(a: &str, b: &str) -> (res: bool)
    ensures
        res == (a@ == b@),
{
    let n = a.unicode_len();
    let m = b.unicode_len();
    if n != m {
        return false;
    }
    let mut i: usize = 0;
    while i < n
        invariant
            n == a@.len(),
            m == b@.len(),
            n == m,
            i <= n,
            forall|j: int| 0 <= j < i ==> a@[j] == b@[j],
        decreases n - i,
    {
        if a.get_char(i) != b.get_char(i) {
            return false;
        }
        i = i + 1;
    }
    assert(a@ =~= b@);
    true
}

/// The name under which each rule is given on the command line and in the UI.
pub open spec fn rule_name(rule: InputSelectionRule) -> Seq<char> {
    match rule {
        InputSelectionRule::Minimum => "minimum"@,
        InputSelectionRule::Maximum => "maximum"@,
        InputSelectionRule::Oldest => "oldest"@,
        InputSelectionRule::Newest => "newest"@,
        InputSelectionRule::Random => "random"@,
    }
}

impl InputSelectionRule {
    /// The rule used when none is given: spend the oldest UTXOs first.
    pub fn default() -> (res: Self)
        ensures
            res == InputSelectionRule::Oldest,
    {
        InputSelectionRule::Oldest
    }

    /// Parse a rule from its lower-case name.
    ///
    /// Returns `Err(())` for every string that is not one of the five names.
    pub fn from_str(s: &str) -> (res: Result<Self, ()>)
        ensures
            res matches Ok(r) ==> rule_name(r) == s@,
            res is Err <==> (forall|r: InputSelectionRule| rule_name(r) != s@),
    {
        proof {
            reveal_strlit("minimum");
            reveal_strlit("maximum");
            reveal_strlit("oldest");
            reveal_strlit("newest");
            reveal_strlit("random");
        }
        if str_eq(s, "minimum") {
            assert(rule_name(InputSelectionRule::Minimum) == s@);
            Ok(InputSelectionRule::Minimum)
        } else if str_eq(s, "maximum") {
            assert(rule_name(InputSelectionRule::Maximum) == s@);
            Ok(InputSelectionRule::Maximum)
        } else if str_eq(s, "oldest") {
            assert(rule_name(InputSelectionRule::Oldest) == s@);
            Ok(InputSelectionRule::Oldest)
        } else if str_eq(s, "newest") {
            assert(rule_name(InputSelectionRule::Newest) == s@);
            Ok(InputSelectionRule::Newest)
        } else if str_eq(s, "random") {
            assert(rule_name(InputSelectionRule::Random) == s@);
            Ok(InputSelectionRule::Random)
        } else {
            proof {
                assert forall|r: InputSelectionRule| rule_name(r) != s@ by {
                    match r {
                        InputSelectionRule::Minimum => {},
                        InputSelectionRule::Maximum => {},
                        InputSelectionRule::Oldest => {},
                        InputSelectionRule::Newest => {},
                        InputSelectionRule::Random => {},
                    }
                }
            }
            Err(())
        }
    }
}


/// What the wallet knows of an unspent UTXO when it chooses inputs.
#[derive(Clone, Copy, Debug, PartialEq, Eq, Structural)]
pub struct UtxoEntry {
    /// Row id of the UTXO in the wallet database.
    pub id: i64,
    /// Native-currency amount, in the smallest unit (nau).
    pub amount: i128,
    /// Height of the block that confirmed the UTXO.
    pub confirm_height: i64,
    /// Time (milliseconds since the epoch) before which the UTXO is locked,
    /// if it carries a time lock.
    pub release_date: Option<u64>,
}

/// The value by which a rule orders UTXOs, smallest first.
pub open spec fn sort_key(rule: InputSelectionRule, e: UtxoEntry) -> int {
    match rule {
        InputSelectionRule::Minimum => e.amount as int,
        InputSelectionRule::Maximum => -(e.amount as int),
        InputSelectionRule::Oldest => e.confirm_height as int,
        InputSelectionRule::Newest => -(e.confirm_height as int),
        InputSelectionRule::Random => 0,
    }
}

/// `s` is ordered by the rule's key, smallest key first.
pub open spec fn sorted_by_rule(s: Seq<UtxoEntry>, rule: InputSelectionRule) -> bool {
    forall|i: int, j: int| 0 <= i < j < s.len() ==> sort_key(rule, #[trigger] s[i]) <= sort_key(rule, #[trigger] s[j])
}

/// The entries of `s` whose key is `k`, in their order in `s`.
pub open spec fn with_key(s: Seq<UtxoEntry>, rule: InputSelectionRule, k: int) -> Seq<UtxoEntry> {
    s.filter(|e: UtxoEntry| sort_key(rule, e) == k)
}

/// `res` is the stable sort of `input` by the rule's key: it is ordered by
/// the key, and the entries that share a key keep their relative order.
pub open spec fn is_stable_sort_of(res: Seq<UtxoEntry>, input: Seq<UtxoEntry>, rule: InputSelectionRule) -> bool {
    &&& sorted_by_rule(res, rule)
    &&& forall|k: int| #[trigger] with_key(res, rule, k) == with_key(input, rule, k)
}

/// Whether `a`'s key is at most `b`'s key under the rule.
fn key_le(rule: InputSelectionRule, a: &UtxoEntry, b: &UtxoEntry) -> (res: bool)
    ensures
        res == (sort_key(rule, *a) <= sort_key(rule, *b)),
{
    match rule {
        InputSelectionRule::Minimum => a.amount <= b.amount,
        InputSelectionRule::Maximum => a.amount >= b.amount,
        InputSelectionRule::Oldest => a.confirm_height <= b.confirm_height,
        InputSelectionRule::Newest => a.confirm_height >= b.confirm_height,
        InputSelectionRule::Random => true,
    }
}

proof fn lemma_insert_keeps_keys(
    res: Seq<UtxoEntry>,
    p: int,
    x: UtxoEntry,
    rule: InputSelectionRule,
    k: int,
)
    requires
        0 <= p <= res.len(),
        forall|j: int| p <= j < res.len() ==> sort_key(rule, #[trigger] res[j]) > sort_key(rule, x),
    ensures
        with_key(res.insert(p, x), rule, k) == if sort_key(rule, x) == k {
            with_key(res, rule, k).push(x)
        } else {
            with_key(res, rule, k)
        },
{
    let pred = |e: UtxoEntry| sort_key(rule, e) == k;
    let a = res.take(p);
    let b = res.skip(p);
    assert(res =~= a + b);
    assert(res.insert(p, x) =~= a.push(x) + b);
    Seq::filter_distributes_over_add(a, b, pred);
    Seq::filter_distributes_over_add(a.push(x), b, pred);
    a.lemma_filter_push(x, pred);
    if sort_key(rule, x) == k {
        assert forall|j: int| 0 <= j < b.len() implies !pred(b[j]) by {
            assert(b[j] == res[p + j]);
        }
        b.lemma_all_neg_filter_empty(pred);
        assert(b.filter(pred) =~= Seq::<UtxoEntry>::empty());
        assert(a.filter(pred) + b.filter(pred) =~= a.filter(pred));
        assert(a.filter(pred).push(x) + b.filter(pred) =~= a.filter(pred).push(x));
    }
}

/// Sort the entries by the rule's key, keeping the order of entries whose
/// keys are equal.
pub fn stable_sort_by_rule(rule: InputSelectionRule, input: Vec<UtxoEntry>) -> (res: Vec<UtxoEntry>)
    ensures
        is_stable_sort_of(res@, input@, rule),
        res@.to_multiset() == input@.to_multiset(),
{
    broadcast use vstd::seq_lib::group_to_multiset_ensures;

    let mut res: Vec<UtxoEntry> = Vec::new();
    let n = input.len();
    let mut i: usize = 0;
    while i < n
        invariant
            n == input@.len(),
            i <= n,
            sorted_by_rule(res@, rule),
            forall|k: int| #[trigger] with_key(res@, rule, k) == with_key(input@.take(i as int), rule, k),
            res@.to_multiset() == input@.take(i as int).to_multiset(),
        decreases n - i,
    {
        let x = input[i];
        let mut p: usize = 0;
        while p < res.len() && key_le(rule, &res[p], &x)
            invariant
                p <= res@.len(),
                sorted_by_rule(res@, rule),
                forall|j: int| 0 <= j < p ==> sort_key(rule, #[trigger] res@[j]) <= sort_key(rule, x),
            decreases res@.len() - p,
        {
            p = p + 1;
        }
        let ghost old_res = res@;
        proof {
            assert forall|j: int| p <= j < old_res.len() implies sort_key(rule, #[trigger] old_res[j]) > sort_key(rule, x) by {
                assert(sort_key(rule, old_res[p as int]) > sort_key(rule, x));
                if j > p {
                    assert(sort_key(rule, old_res[p as int]) <= sort_key(rule, old_res[j]));
                }
            }
            assert(input@.take(i as int + 1) =~= input@.take(i as int).push(x));
            assert forall|k: int| #[trigger] with_key(old_res.insert(p as int, x), rule, k) == with_key(input@.take(i as int + 1), rule, k) by {
                lemma_insert_keeps_keys(old_res, p as int, x, rule, k);
                input@.take(i as int).lemma_filter_push(x, |e: UtxoEntry| sort_key(rule, e) == k);
            }
            old_res.insert_ensures(p as int, x);
            let a = old_res.take(p as int);
            let b = old_res.skip(p as int);
            assert(old_res =~= a + b);
            assert(old_res.insert(p as int, x) =~= a.push(x) + b);
            vstd::seq_lib::lemma_multiset_commutative(a, b);
            vstd::seq_lib::lemma_multiset_commutative(a.push(x), b);
            a.to_multiset_ensures();
            input@.take(i as int).to_multiset_ensures();
            assert(a.push(x).to_multiset() =~= a.to_multiset().insert(x));
            assert(old_res.insert(p as int, x).to_multiset() =~= old_res.to_multiset().insert(x)) by {
                broadcast use vstd::multiset::group_multiset_axioms;
            }
            assert(input@.take(i as int + 1).to_multiset() =~= input@.take(i as int).to_multiset().insert(x));
        }
        res.insert(p, x);
        proof {
            assert(res@ == old_res.insert(p as int, x));
            assert forall|a: int, b: int| 0 <= a < b < res@.len() implies sort_key(rule, #[trigger] res@[a]) <= sort_key(rule, #[trigger] res@[b]) by {
                if a < p && b < p {
                } else if a < p && b == p {
                } else if a < p && b > p {
                    assert(res@[b] == old_res[b - 1]);
                } else if a == p {
                    assert(res@[b] == old_res[b - 1]);
                } else {
                    assert(res@[a] == old_res[a - 1]);
                    assert(res@[b] == old_res[b - 1]);
                }
            }
        }
        i = i + 1;
    }
    assert(input@.take(n as int) =~= input@);
    res
}

/// Calls `rand::seq::SliceRandom::shuffle` on the vector's slice with the
/// thread-local generator `rand::rng()`.
///
/// Claims only that the vector afterwards holds the same entries, each as
/// often as before; which permutation comes out rests on chance.
#[verifier::external_body]
fn shuffle_entries(v: &mut Vec<UtxoEntry>)
    ensures
        final(v)@.to_multiset() == old(v)@.to_multiset(),
{
    v.shuffle(&mut rand::rng());
}

impl InputSelectionRule {
    /// Order the UTXOs as the rule says.
    ///
    /// `Minimum` puts the smallest amounts first, `Maximum` the largest,
    /// `Oldest` the lowest confirmation heights, `Newest` the highest; ties
    /// keep their order. `Random` returns a random permutation.
    pub fn apply(&self, utxos: Vec<UtxoEntry>) -> (res: Vec<UtxoEntry>)
        ensures
            res@.to_multiset() == utxos@.to_multiset(),
            *self != InputSelectionRule::Random ==> is_stable_sort_of(res@, utxos@, *self),
    {
        match self {
            InputSelectionRule::Random => {
                let mut v = utxos;
                shuffle_entries(&mut v);
                v
            },
            _ => stable_sort_by_rule(*self, utxos),
        }
    }
}

/// Whether `id` occurs in `ids`.
pub fn contains_id(ids: &Vec<i64>, id: i64) -> (res: bool)
    ensures
        res == ids@.contains(id),
{
    let mut i: usize = 0;
    while i < ids.len()
        invariant
            i <= ids@.len(),
            forall|j: int| 0 <= j < i ==> ids@[j] != id,
        decreases ids@.len() - i,
    {
        if ids[i] == id {
            return true;
        }
        i = i + 1;
    }
    false
}

/// The UTXOs that may be picked freely: neither spent by a transaction that
/// waits in the mempool nor already chosen by the caller.
pub open spec fn is_free_candidate(e: UtxoEntry, pending: Seq<i64>, must_include: Seq<i64>) -> bool {
    !pending.contains(e.id) && !must_include.contains(e.id)
}

pub open spec fn free_candidates(s: Seq<UtxoEntry>, pending: Seq<i64>, must_include: Seq<i64>) -> Seq<UtxoEntry> {
    s.filter(|e: UtxoEntry| is_free_candidate(e, pending, must_include))
}

/// Dropping the taken UTXOs keeps every UTXO whose id is neither spent by a
/// pending transaction nor already chosen, as often as it occurs, and keeps
/// nothing else.
pub proof fn law_free_candidates(unspent: Seq<UtxoEntry>, pending: Seq<i64>, must_include: Seq<i64>)
    ensures
        forall|e: UtxoEntry| #[trigger] free_candidates(unspent, pending, must_include).to_multiset().count(e)
            == if !pending.contains(e.id) && !must_include.contains(e.id) { unspent.to_multiset().count(e) } else { 0 },
        forall|q: int| 0 <= q < free_candidates(unspent, pending, must_include).len() ==> {
            let e = #[trigger] free_candidates(unspent, pending, must_include)[q];
            &&& !pending.contains(e.id)
            &&& !must_include.contains(e.id)
            &&& unspent.contains(e)
        },
    decreases unspent.len(),
{
    broadcast use vstd::seq_lib::group_to_multiset_ensures, vstd::multiset::group_multiset_axioms;
    let pred = |e: UtxoEntry| is_free_candidate(e, pending, must_include);
    let fc = free_candidates(unspent, pending, must_include);
    if unspent.len() == 0 {
        assert(fc =~= Seq::<UtxoEntry>::empty());
        assert forall|e: UtxoEntry| #[trigger] fc.to_multiset().count(e) == 0 by {}
    } else {
        let u = unspent.drop_last();
        let x = unspent.last();
        law_free_candidates(u, pending, must_include);
        assert(unspent =~= u.push(x));
        u.lemma_filter_push(x, pred);
        let fu = free_candidates(u, pending, must_include);
        assert forall|e: UtxoEntry| #[trigger] fc.to_multiset().count(e)
            == if !pending.contains(e.id) && !must_include.contains(e.id) { unspent.to_multiset().count(e) } else { 0 } by {
            assert(unspent.to_multiset() =~= u.to_multiset().insert(x));
            if pred(x) {
                assert(fc == fu.push(x));
                assert(fc.to_multiset() =~= fu.to_multiset().insert(x));
            } else {
                assert(fc == fu);
            }
        }
        assert forall|q: int| 0 <= q < fc.len() implies ({
            let e = #[trigger] fc[q];
            &&& !pending.contains(e.id)
            &&& !must_include.contains(e.id)
            &&& unspent.contains(e)
        }) by {
            if q < fu.len() {
                assert(fc[q] == fu[q]);
                let e = fu[q];
                let i = choose|i: int| 0 <= i < u.len() && u[i] == e;
                assert(unspent[i] == e);
            } else {
                assert(fc[q] == x);
                assert(unspent[unspent.len() - 1] == x);
            }
        }
    }
}

/// Order the wallet's unspent UTXOs for input selection.
///
/// Drops the UTXOs that a pending transaction spends and those the caller
/// already chose (`must_include`), and orders the rest by the rule.
pub fn candidate_order(
    unspent: Vec<UtxoEntry>,
    pending: &Vec<i64>,
    rule: InputSelectionRule,
    must_include: &Vec<i64>,
) -> (res: Vec<UtxoEntry>)
    ensures
        res@.to_multiset() == free_candidates(unspent@, pending@, must_include@).to_multiset(),
        rule != InputSelectionRule::Random ==> is_stable_sort_of(
            res@,
            free_candidates(unspent@, pending@, must_include@),
            rule,
        ),
        forall|e: UtxoEntry| #[trigger] res@.to_multiset().count(e)
            == if !pending@.contains(e.id) && !must_include@.contains(e.id) { unspent@.to_multiset().count(e) } else { 0 },
        forall|q: int| 0 <= q < res@.len() ==> !pending@.contains((#[trigger] res@[q]).id)
            && !must_include@.contains(res@[q].id) && unspent@.contains(res@[q]),
{
    let mut kept: Vec<UtxoEntry> = Vec::new();
    let n = unspent.len();
    let mut i: usize = 0;
    while i < n
        invariant
            n == unspent@.len(),
            i <= n,
            kept@ == free_candidates(unspent@.take(i as int), pending@, must_include@),
        decreases n - i,
    {
        let e = unspent[i];
        proof {
            assert(unspent@.take(i as int + 1) =~= unspent@.take(i as int).push(e));
            unspent@.take(i as int).lemma_filter_push(
                e,
                |e: UtxoEntry| is_free_candidate(e, pending@, must_include@),
            );
        }
        if !contains_id(pending, e.id) && !contains_id(must_include, e.id) {
            kept.push(e);
        }
        i = i + 1;
    }
    assert(unspent@.take(n as int) =~= unspent@);
    let res = rule.apply(kept);
    proof {
        broadcast use vstd::seq_lib::group_to_multiset_ensures;
        law_free_candidates(unspent@, pending@, must_include@);
        let fc = free_candidates(unspent@, pending@, must_include@);
        assert forall|q: int| 0 <= q < res@.len() implies !pending@.contains((#[trigger] res@[q]).id)
            && !must_include@.contains(res@[q].id) && unspent@.contains(res@[q]) by {
            let e = res@[q];
            assert(res@.contains(e));
            assert(res@.to_multiset().count(e) > 0);
            assert(fc.to_multiset().count(e) > 0);
            assert(fc.contains(e));
            let k = choose|k: int| 0 <= k < fc.len() && fc[k] == e;
            assert(fc[k] == e);
        }
    }
    res
}

/// Sum of the amounts of a sequence of UTXOs.
pub open spec fn total_amount(s: Seq<UtxoEntry>) -> int
    decreases s.len(),
{
    if s.len() == 0 {
        0
    } else {
        total_amount(s.drop_last()) + s.last().amount
    }
}

/// Sum of a sequence of amounts.
pub open spec fn sum_amounts(s: Seq<i128>) -> int
    decreases s.len(),
{
    if s.len() == 0 {
        0
    } else {
        sum_amounts(s.drop_last()) + s.last()
    }
}

pub open spec fn fits_i128(x: int) -> bool {
    i128::MIN <= x <= i128::MAX
}

/// Every running total of the amounts fits in an `i128`.
pub open spec fn amount_prefixes_fit(s: Seq<i128>) -> bool {
    forall|k: int| 0 <= k <= s.len() ==> fits_i128(#[trigger] sum_amounts(s.take(k)))
}

/// Every running total of the UTXO amounts fits in an `i128`.
pub open spec fn total_prefixes_fit(s: Seq<UtxoEntry>) -> bool {
    forall|k: int| 0 <= k <= s.len() ==> fits_i128(#[trigger] total_amount(s.take(k)))
}

/// The amount that the inputs must cover: all outputs plus the fee.
pub open spec fn required_amount_spec(outputs: Seq<i128>, fee: i128) -> int {
    sum_amounts(outputs) + fee
}

/// Sum the output amounts and the fee.
pub fn required_amount(outputs: &Vec<i128>, fee: i128) -> (res: i128)
    requires
        amount_prefixes_fit(outputs@),
        fits_i128(required_amount_spec(outputs@, fee)),
    ensures
        res == required_amount_spec(outputs@, fee),
{
    let mut total: i128 = 0;
    let mut i: usize = 0;
    while i < outputs.len()
        invariant
            i <= outputs@.len(),
            amount_prefixes_fit(outputs@),
            total == sum_amounts(outputs@.take(i as int)),
        decreases outputs@.len() - i,
    {
        proof {
            assert(outputs@.take(i as int + 1).drop_last() =~= outputs@.take(i as int));
            assert(fits_i128(sum_amounts(outputs@.take(i as int + 1))));
        }
        total = total + outputs[i];
        i = i + 1;
    }
    assert(outputs@.take(outputs@.len() as int) =~= outputs@);
    total + fee
}

/// Sum the amounts of the UTXOs.
pub fn sum_entries(s: &Vec<UtxoEntry>) -> (res: i128)
    requires
        total_prefixes_fit(s@),
    ensures
        res == total_amount(s@),
{
    let mut total: i128 = 0;
    let mut i: usize = 0;
    while i < s.len()
        invariant
            i <= s@.len(),
            total_prefixes_fit(s@),
            total == total_amount(s@.take(i as int)),
        decreases s@.len() - i,
    {
        proof {
            assert(s@.take(i as int + 1).drop_last() =~= s@.take(i as int));
            assert(fits_i128(total_amount(s@.take(i as int + 1))));
        }
        total = total + s[i].amount;
        i = i + 1;
    }
    assert(s@.take(s@.len() as int) =~= s@);
    total
}

/// A UTXO whose time lock has not yet expired at `now`.
pub open spec fn is_locked_at(e: UtxoEntry, now: u64) -> bool {
    match e.release_date {
        Some(r) => r > now,
        None => false,
    }
}

/// The UTXOs that greedy selection adds, walking `c` in order: it stops as
/// soon as the running total `acc` reaches `need`, skips time-locked UTXOs,
/// and takes every other one.
pub open spec fn greedy_pick(c: Seq<UtxoEntry>, need: int, acc: int, now: u64) -> Seq<UtxoEntry>
    decreases c.len(),
{
    if c.len() == 0 || acc >= need {
        Seq::empty()
    } else if is_locked_at(c[0], now) {
        greedy_pick(c.drop_first(), need, acc, now)
    } else {
        seq![c[0]] + greedy_pick(c.drop_first(), need, acc + c[0].amount, now)
    }
}

/// Every running total that greedy selection computes fits in an `i128`.
pub open spec fn greedy_fits(c: Seq<UtxoEntry>, need: int, acc: int, now: u64) -> bool
    decreases c.len(),
{
    if c.len() == 0 || acc >= need {
        true
    } else if is_locked_at(c[0], now) {
        greedy_fits(c.drop_first(), need, acc, now)
    } else {
        fits_i128(acc + c[0].amount) && greedy_fits(c.drop_first(), need, acc + c[0].amount, now)
    }
}

/// The ids of a sequence of UTXOs.
pub open spec fn ids_of(s: Seq<UtxoEntry>) -> Seq<i64> {
    s.map_values(|e: UtxoEntry| e.id)
}

/// Choose the inputs of a transaction.
///
/// The inputs the caller chose (`preselected`, with their ids in
/// `must_include`) always come first; then UTXOs from `ordered` are added in
/// order, skipping time-locked ones, until the total reaches `required`.
/// Returns the inputs and their database ids.
pub fn pick_inputs(
    ordered: &Vec<UtxoEntry>,
    preselected: Vec<UtxoEntry>,
    must_include: Vec<i64>,
    required: i128,
    now: u64,
) -> (res: (Vec<UtxoEntry>, Vec<i64>))
    requires
        total_prefixes_fit(preselected@),
        greedy_fits(ordered@, required as int, total_amount(preselected@), now),
    ensures
        res.0@ == preselected@ + greedy_pick(ordered@, required as int, total_amount(preselected@), now),
        res.1@ == must_include@ + ids_of(greedy_pick(ordered@, required as int, total_amount(preselected@), now)),
{
    let ghost start = total_amount(preselected@);
    let mut total = sum_entries(&preselected);
    let mut inputs = preselected;
    let mut ids = must_include;
    let ghost inputs0 = inputs@;
    let ghost ids0 = ids@;
    assert(ordered@.skip(0) =~= ordered@);
    let n = ordered.len();
    let mut i: usize = 0;
    while i < n
        invariant_except_break
            n == ordered@.len(),
            i <= n,
            greedy_fits(ordered@.skip(i as int), required as int, total as int, now),
            inputs@ + greedy_pick(ordered@.skip(i as int), required as int, total as int, now)
                == inputs0 + greedy_pick(ordered@, required as int, start, now),
            ids@ + ids_of(greedy_pick(ordered@.skip(i as int), required as int, total as int, now))
                == ids0 + ids_of(greedy_pick(ordered@, required as int, start, now)),
        ensures
            inputs@ == inputs0 + greedy_pick(ordered@, required as int, start, now),
            ids@ == ids0 + ids_of(greedy_pick(ordered@, required as int, start, now)),
        decreases n - i,
    {
        let ghost rest = ordered@.skip(i as int);
        assert(rest.drop_first() =~= ordered@.skip(i as int + 1));
        if total >= required {
            assert(inputs@ + Seq::<UtxoEntry>::empty() =~= inputs@);
            assert(ids@ + ids_of(Seq::<UtxoEntry>::empty()) =~= ids@);
            break;
        }
        let e = ordered[i];
        assert(rest[0] == e);
        let locked = match e.release_date {
            Some(r) => r > now,
            None => false,
        };
        if !locked {
            let ghost tail = greedy_pick(rest.drop_first(), required as int, total + e.amount, now);
            assert(inputs@.push(e) + tail =~= inputs@ + (seq![e] + tail));
            assert(ids_of(seq![e] + tail) =~= seq![e.id] + ids_of(tail));
            assert(ids@.push(e.id) + ids_of(tail) =~= ids@ + (seq![e.id] + ids_of(tail)));
            total = total + e.amount;
            inputs.push(e);
            ids.push(e.id);
        }
        i = i + 1;
    }
    proof {
        if i == n {
            assert(ordered@.skip(n as int) =~= Seq::<UtxoEntry>::empty());
            assert(inputs@ + Seq::<UtxoEntry>::empty() =~= inputs@);
            assert(ids@ + ids_of(Seq::<UtxoEntry>::empty()) =~= ids@);
        }
    }
    (inputs, ids)
}

proof fn lemma_total_prepend(x: UtxoEntry, s: Seq<UtxoEntry>)
    ensures
        total_amount(seq![x] + s) == x.amount + total_amount(s),
    decreases s.len(),
{
    if s.len() == 0 {
        assert(seq![x] + s =~= seq![x]);
        assert(seq![x].drop_last() =~= Seq::<UtxoEntry>::empty());
        assert(total_amount(Seq::<UtxoEntry>::empty()) == 0);
        assert(total_amount(seq![x]) == total_amount(seq![x].drop_last()) + seq![x].last().amount);
    } else {
        assert((seq![x] + s).drop_last() =~= seq![x] + s.drop_last());
        assert((seq![x] + s).last() == s.last());
        lemma_total_prepend(x, s.drop_last());
    }
}

/// The total of the UTXOs in `c` that are not time-locked at `now`.
pub open spec fn spendable_total(c: Seq<UtxoEntry>, now: u64) -> int
    decreases c.len(),
{
    if c.len() == 0 {
        0
    } else if is_locked_at(c[0], now) {
        spendable_total(c.drop_first(), now)
    } else {
        c[0].amount + spendable_total(c.drop_first(), now)
    }
}

/// Greedy selection never picks a UTXO that is time-locked at `now`, and it
/// only picks UTXOs of the candidate list.
pub proof fn law_greedy_skips_locked(c: Seq<UtxoEntry>, need: int, acc: int, now: u64)
    ensures
        forall|i: int| 0 <= i < greedy_pick(c, need, acc, now).len()
            ==> !is_locked_at(#[trigger] greedy_pick(c, need, acc, now)[i], now)
                && c.contains(greedy_pick(c, need, acc, now)[i]),
    decreases c.len(),
{
    if c.len() == 0 || acc >= need {
    } else if is_locked_at(c[0], now) {
        law_greedy_skips_locked(c.drop_first(), need, acc, now);
        assert forall|i: int| 0 <= i < greedy_pick(c, need, acc, now).len()
            implies c.contains(#[trigger] greedy_pick(c, need, acc, now)[i]) by {
            let x = greedy_pick(c, need, acc, now)[i];
            assert(greedy_pick(c, need, acc, now) == greedy_pick(c.drop_first(), need, acc, now));
            assert(greedy_pick(c.drop_first(), need, acc, now)[i] == x);
            assert(c.drop_first().contains(x));
            let j = choose|j: int| 0 <= j < c.drop_first().len() && c.drop_first()[j] == x;
            assert(c[j + 1] == x);
        }
    } else {
        law_greedy_skips_locked(c.drop_first(), need, acc + c[0].amount, now);
        let tail = greedy_pick(c.drop_first(), need, acc + c[0].amount, now);
        assert forall|i: int| 0 <= i < greedy_pick(c, need, acc, now).len()
            implies !is_locked_at(#[trigger] greedy_pick(c, need, acc, now)[i], now)
                && c.contains(greedy_pick(c, need, acc, now)[i]) by {
            let x = greedy_pick(c, need, acc, now)[i];
            if i == 0 {
                assert(x == c[0]);
            } else {
                assert(x == tail[i - 1]);
                assert(c.drop_first().contains(x));
                let j = choose|j: int| 0 <= j < c.drop_first().len() && c.drop_first()[j] == x;
                assert(c[j + 1] == x);
            }
        }
    }
}

/// Inputs picked from a candidate order are free: none of them is spent by a
/// pending transaction or already among the caller's chosen inputs, and none
/// is time-locked.
pub proof fn law_picked_inputs_are_free(
    unspent: Seq<UtxoEntry>,
    pending: Seq<i64>,
    must_include: Seq<i64>,
    ordered: Seq<UtxoEntry>,
    need: int,
    acc: int,
    now: u64,
)
    requires
        ordered.to_multiset() == free_candidates(unspent, pending, must_include).to_multiset(),
    ensures
        forall|i: int| 0 <= i < greedy_pick(ordered, need, acc, now).len() ==> {
            let e = #[trigger] greedy_pick(ordered, need, acc, now)[i];
            is_free_candidate(e, pending, must_include) && !is_locked_at(e, now) && unspent.contains(e)
        },
{
    broadcast use vstd::seq_lib::group_to_multiset_ensures;

    law_greedy_skips_locked(ordered, need, acc, now);
    let f = free_candidates(unspent, pending, must_include);
    let pred = |e: UtxoEntry| is_free_candidate(e, pending, must_include);
    assert forall|i: int| 0 <= i < greedy_pick(ordered, need, acc, now).len() implies {
        let e = #[trigger] greedy_pick(ordered, need, acc, now)[i];
        is_free_candidate(e, pending, must_include) && !is_locked_at(e, now) && unspent.contains(e)
    } by {
        let e = greedy_pick(ordered, need, acc, now)[i];
        assert(ordered.contains(e));
        ordered.to_multiset_ensures();
        f.to_multiset_ensures();
        assert(ordered.to_multiset().count(e) > 0);
        assert(f.to_multiset().count(e) > 0);
        assert(f.contains(e));
        let j = choose|j: int| 0 <= j < f.len() && f[j] == e;
        unspent.lemma_filter_pred(pred, j);
        assert(pred(f[j]));
        unspent.lemma_filter_contains_rev(pred, e);
        assert(unspent.contains(e));
    }
}

/// If the spendable UTXOs suffice, greedy selection reaches the required
/// amount: the running total plus the picked amounts is at least `need`.
pub proof fn law_greedy_covers(c: Seq<UtxoEntry>, need: int, acc: int, now: u64)
    requires
        acc + spendable_total(c, now) >= need,
    ensures
        acc + total_amount(greedy_pick(c, need, acc, now)) >= need,
    decreases c.len(),
{
    if c.len() == 0 || acc >= need {
        assert(total_amount(Seq::<UtxoEntry>::empty()) == 0);
    } else if is_locked_at(c[0], now) {
        law_greedy_covers(c.drop_first(), need, acc, now);
    } else {
        law_greedy_covers(c.drop_first(), need, acc + c[0].amount, now);
        lemma_total_prepend(c[0], greedy_pick(c.drop_first(), need, acc + c[0].amount, now));
    }
}

/// Greedy selection stops as soon as the required amount is reached: without
/// its last pick, the total is still short of `need`.
pub proof fn law_greedy_stops_early(c: Seq<UtxoEntry>, need: int, acc: int, now: u64)
    requires
        greedy_pick(c, need, acc, now).len() > 0,
    ensures
        acc + total_amount(greedy_pick(c, need, acc, now).drop_last()) < need,
    decreases c.len(),
{
    if c.len() == 0 || acc >= need {
    } else if is_locked_at(c[0], now) {
        law_greedy_stops_early(c.drop_first(), need, acc, now);
    } else {
        let tail = greedy_pick(c.drop_first(), need, acc + c[0].amount, now);
        if tail.len() == 0 {
            assert((seq![c[0]] + tail).drop_last() =~= Seq::<UtxoEntry>::empty());
        } else {
            law_greedy_stops_early(c.drop_first(), need, acc + c[0].amount, now);
            assert((seq![c[0]] + tail).drop_last() =~= seq![c[0]] + tail.drop_last());
            lemma_total_prepend(c[0], tail.drop_last());
        }
    }
}

/// Why the chosen inputs cannot be used.
#[derive(Clone, Copy, Debug, PartialEq, Eq, Structural)]
pub enum InputError {
    /// Fewer inputs could be unlocked than were chosen.
    CountMismatch,
}

impl InputError {
    /// The text of the error.
    pub fn message(&self) -> (res: &'static str)
        ensures
            res@ == "Inputs and db_idxs must have the same length"@,
    {
        "Inputs and db_idxs must have the same length"
    }
}

/// Every chosen input must have been unlocked.
pub fn check_unlocked_count(num_unlocked: usize, num_ids: usize) -> (res: Result<(), InputError>)
    ensures
        res is Ok <==> num_unlocked == num_ids,
{
    if num_unlocked == num_ids {
        Ok(())
    } else {
        Err(InputError::CountMismatch)
    }
}

} // verus!
