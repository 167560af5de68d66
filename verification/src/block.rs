use vstd::prelude::*;
use crate::types::Digest;

verus! {

/// Every block but the genesis block adds two guesser-fee outputs to the
/// append-only commitment list (AOCL).
pub const NUM_GUESSER_OUTPUTS: u64 = 2;

/// The number of AOCL leaves before a block is applied.
pub open spec fn aocl_leafs_prior_spec(num_leafs_after: u64, num_outputs: usize, is_genesis: bool) -> int {
    num_leafs_after - num_outputs - if is_genesis { 0int } else { NUM_GUESSER_OUTPUTS as int }
}

/// The number of AOCL leaves before a block is applied, from the number
/// after it, the number of its transaction's outputs, and whether it is the
/// genesis block.
pub fn num_aocl_leafs_prior(num_leafs_after: u64, num_outputs: usize, is_genesis: bool) -> (res: u64)
    requires
        aocl_leafs_prior_spec(num_leafs_after, num_outputs, is_genesis) >= 0,
    ensures
        res == aocl_leafs_prior_spec(num_leafs_after, num_outputs, is_genesis),
{
    let outputs = num_outputs as u64;
    let guesser = if is_genesis { 0 } else { NUM_GUESSER_OUTPUTS };
    num_leafs_after - outputs - guesser
}

/// The position of the last occurrence of `d` in `ds`.
pub open spec fn last_position(ds: Seq<Digest>, d: Digest) -> Option<int>
    decreases ds.len(),
{
    if ds.len() == 0 {
        None
    } else if ds.last() == d {
        Some(ds.len() - 1)
    } else {
        last_position(ds.drop_last(), d)
    }
}

/// Find the last occurrence of `d` in `ds`: the entry that wins when the
/// list is collected into a map keyed by digest.
pub fn find_last(ds: &Vec<Digest>, d: Digest) -> (res: Option<usize>)
    ensures
        res matches Some(i) ==> last_position(ds@, d) == Some(i as int),
        res is None ==> last_position(ds@, d) is None,
{
    let mut i = ds.len();
    assert(ds@.take(i as int) =~= ds@);
    while i > 0
        invariant
            i <= ds@.len(),
            last_position(ds@, d) == last_position(ds@.take(i as int), d),
        decreases i,
    {
        proof {
            assert(ds@.take(i as int).drop_last() =~= ds@.take(i as int - 1));
        }
        if ds[i - 1] == d {
            return Some(i - 1);
        }
        i = i - 1;
    }
    assert(ds@.take(0) =~= Seq::<Digest>::empty());
    None
}

/// The incoming UTXOs a block confirms, in the order of the block's outputs,
/// each with its AOCL leaf index.
pub open spec fn confirmed_incoming(prior: u64, records: Seq<Digest>, incoming: Seq<Digest>) -> Seq<(int, int)>
    decreases records.len(),
{
    if records.len() == 0 {
        Seq::empty()
    } else {
        let prev = confirmed_incoming(prior, records.drop_last(), incoming);
        match last_position(incoming, records.last()) {
            Some(j) => prev.push((j, prior + records.len() - 1)),
            None => prev,
        }
    }
}

/// `j` is the last position of `d` in `ds`.
pub open spec fn is_last_position(ds: Seq<Digest>, d: Digest, j: int) -> bool {
    &&& 0 <= j < ds.len()
    &&& ds[j] == d
    &&& forall|j2: int| j < j2 < ds.len() ==> ds[j2] != d
}

proof fn lemma_last_position(ds: Seq<Digest>, d: Digest)
    ensures
        last_position(ds, d) is None <==> !ds.contains(d),
        last_position(ds, d) matches Some(j) ==> is_last_position(ds, d, j),
        forall|j: int| #[trigger] is_last_position(ds, d, j) ==> last_position(ds, d) == Some(j),
    decreases ds.len(),
{
    if ds.len() > 0 {
        let rest = ds.drop_last();
        lemma_last_position(rest, d);
        assert forall|i: int| 0 <= i < rest.len() implies #[trigger] rest[i] == ds[i] by {}
        if ds.last() == d {
            assert(ds.contains(d)) by {
                assert(ds[ds.len() - 1] == d);
            }
            assert forall|j: int| #[trigger] is_last_position(ds, d, j) implies last_position(ds, d) == Some(j) by {
                if j < ds.len() - 1 {
                    assert(ds[ds.len() - 1] != d);
                }
            }
        } else {
            if ds.contains(d) {
                let i = choose|i: int| 0 <= i < ds.len() && ds[i] == d;
                assert(rest[i] == d);
                assert(rest.contains(d));
            }
            if rest.contains(d) {
                let i = choose|i: int| 0 <= i < rest.len() && rest[i] == d;
                assert(ds[i] == d);
            }
            if let Some(j) = last_position(ds, d) {
                assert(is_last_position(rest, d, j));
                assert forall|j2: int| j < j2 < ds.len() implies ds[j2] != d by {
                    if j2 < rest.len() {
                        assert(rest[j2] == ds[j2]);
                    }
                }
            }
            assert forall|j: int| #[trigger] is_last_position(ds, d, j) implies last_position(ds, d) == Some(j) by {
                assert(is_last_position(rest, d, j));
            }
        }
    }
}

/// The number of a block's outputs that are among the wallet's incoming
/// UTXOs.
pub open spec fn num_matching(records: Seq<Digest>, incoming: Seq<Digest>) -> nat {
    records.filter(|d: Digest| incoming.contains(d)).len()
}

proof fn lemma_num_matching_push(records: Seq<Digest>, incoming: Seq<Digest>)
    requires
        records.len() > 0,
    ensures
        num_matching(records, incoming) == num_matching(records.drop_last(), incoming)
            + if incoming.contains(records.last()) { 1nat } else { 0nat },
{
    let pred = |d: Digest| incoming.contains(d);
    assert(records =~= records.drop_last().push(records.last()));
    records.drop_last().lemma_filter_push(records.last(), pred);
}

/// Applying a block credits exactly the incoming UTXOs that are among its
/// outputs: one entry per such output, in output order, each pairing the
/// (last) position of that UTXO among the incoming ones with the output's
/// AOCL leaf index, `prior` plus its position in the block.
pub proof fn law_confirmed_incoming(prior: u64, records: Seq<Digest>, incoming: Seq<Digest>)
    ensures
        confirmed_incoming(prior, records, incoming).len() == num_matching(records, incoming),
        forall|k: int| 0 <= k < confirmed_incoming(prior, records, incoming).len() ==> {
            let e = #[trigger] confirmed_incoming(prior, records, incoming)[k];
            &&& prior <= e.1 < prior + records.len()
            &&& is_last_position(incoming, records[e.1 - prior], e.0)
        },
        forall|k1: int, k2: int| 0 <= k1 < k2 < confirmed_incoming(prior, records, incoming).len()
            ==> (#[trigger] confirmed_incoming(prior, records, incoming)[k1]).1 < (#[trigger] confirmed_incoming(prior, records, incoming)[k2]).1,
        forall|i: int, j: int| 0 <= i < records.len() && #[trigger] is_last_position(incoming, records[i], j)
            ==> confirmed_incoming(prior, records, incoming).contains((j, prior + i)),
    decreases records.len(),
{
    let r = confirmed_incoming(prior, records, incoming);
    if records.len() > 0 {
        let rs = records.drop_last();
        let p = confirmed_incoming(prior, rs, incoming);
        law_confirmed_incoming(prior, rs, incoming);
        lemma_num_matching_push(records, incoming);
        lemma_last_position(incoming, records.last());
        assert forall|i: int| 0 <= i < rs.len() implies #[trigger] rs[i] == records[i] by {}
        assert forall|k: int| 0 <= k < p.len() implies #[trigger] r[k] == p[k] by {}
        assert forall|k: int| 0 <= k < r.len() implies ({
            let e = #[trigger] r[k];
            &&& prior <= e.1 < prior + records.len()
            &&& is_last_position(incoming, records[e.1 - prior], e.0)
        }) by {
            if k < p.len() {
                assert(r[k] == p[k]);
                assert(rs[p[k].1 - prior] == records[p[k].1 - prior]);
            }
        }
        assert forall|k1: int, k2: int| 0 <= k1 < k2 < r.len() implies (#[trigger] r[k1]).1 < (#[trigger] r[k2]).1 by {
            if k2 < p.len() {
                assert(r[k1] == p[k1] && r[k2] == p[k2]);
            } else {
                assert(r[k1] == p[k1]);
                assert(p[k1].1 < prior + rs.len());
            }
        }
        assert forall|i: int, j: int| 0 <= i < records.len() && #[trigger] is_last_position(incoming, records[i], j)
            implies r.contains((j, prior + i)) by {
            if i < rs.len() {
                assert(is_last_position(incoming, rs[i], j));
                assert(p.contains((j, prior + i)));
                let k = choose|k: int| 0 <= k < p.len() && p[k] == (j, prior + i);
                assert(r[k] == (j, prior + i));
            } else {
                assert(records[i] == records.last());
                assert(last_position(incoming, records.last()) == Some(j));
                assert(r[r.len() - 1] == (j, prior + i));
            }
        }
    }
}

/// Match a block's addition records with the wallet's incoming UTXOs.
///
/// `records` are the addition records of the block's outputs in AOCL order,
/// starting at leaf `prior`; `incoming` the addition records of the UTXOs the
/// wallet found announced or expected. Returns, for each output that is one
/// of them, the position of that incoming UTXO and the output's AOCL index.
pub fn assign_aocl_indices(prior: u64, records: &Vec<Digest>, incoming: &Vec<Digest>) -> (res: Vec<(usize, u64)>)
    requires
        prior + records@.len() < u64::MAX,
    ensures
        res@.map_values(|p: (usize, u64)| (p.0 as int, p.1 as int)) == confirmed_incoming(prior, records@, incoming@),
        res@.len() == num_matching(records@, incoming@),
        forall|i: int, j: int| 0 <= i < records@.len() && #[trigger] is_last_position(incoming@, records@[i], j)
            ==> res@.map_values(|p: (usize, u64)| (p.0 as int, p.1 as int)).contains((j, prior + i)),
{
    proof {
        law_confirmed_incoming(prior, records@, incoming@);
    }
    let mut res: Vec<(usize, u64)> = Vec::new();
    let mut i: usize = 0;
    while i < records.len()
        invariant
            i <= records@.len(),
            prior + records@.len() < u64::MAX,
            res@.map_values(|p: (usize, u64)| (p.0 as int, p.1 as int)) == confirmed_incoming(prior, records@.take(i as int), incoming@),
        decreases records@.len() - i,
    {
        proof {
            assert(records@.take(i as int + 1).drop_last() =~= records@.take(i as int));
        }
        match find_last(incoming, records[i]) {
            Some(j) => {
                let ghost before = res@;
                res.push((j, prior + i as u64));
                assert(res@.map_values(|p: (usize, u64)| (p.0 as int, p.1 as int)) =~= before.map_values(
                    |p: (usize, u64)| (p.0 as int, p.1 as int),
                ).push((j as int, prior + i)));
            },
            None => {},
        }
        i = i + 1;
    }
    assert(records@.take(records@.len() as int) =~= records@);
    res
}

/// The expected UTXOs a block delivers, in the order of the block's
/// outputs: for each output, the expected UTXO with that addition record.
pub open spec fn delivered_expected(records: Seq<Digest>, expected: Seq<Digest>) -> Seq<int>
    decreases records.len(),
{
    if records.len() == 0 {
        Seq::empty()
    } else {
        let prev = delivered_expected(records.drop_last(), expected);
        match last_position(expected, records.last()) {
            Some(j) => prev.push(j),
            None => prev,
        }
    }
}

/// A block delivers exactly the expected UTXOs among its outputs: one entry
/// per output that is an expected UTXO, giving its (last) position among the
/// expected ones, and nothing else.
pub proof fn law_delivered_expected(records: Seq<Digest>, expected: Seq<Digest>)
    ensures
        delivered_expected(records, expected).len() == num_matching(records, expected),
        forall|k: int| 0 <= k < delivered_expected(records, expected).len() ==> exists|i: int|
            0 <= i < records.len() && is_last_position(expected, #[trigger] records[i], #[trigger] delivered_expected(records, expected)[k]),
        forall|i: int, j: int| 0 <= i < records.len() && #[trigger] is_last_position(expected, records[i], j)
            ==> delivered_expected(records, expected).contains(j),
    decreases records.len(),
{
    let r = delivered_expected(records, expected);
    if records.len() > 0 {
        let rs = records.drop_last();
        let p = delivered_expected(rs, expected);
        law_delivered_expected(rs, expected);
        lemma_num_matching_push(records, expected);
        lemma_last_position(expected, records.last());
        assert forall|i: int| 0 <= i < rs.len() implies #[trigger] rs[i] == records[i] by {}
        assert forall|k: int| 0 <= k < r.len() implies exists|i: int|
            0 <= i < records.len() && is_last_position(expected, #[trigger] records[i], #[trigger] r[k]) by {
            if k < p.len() {
                assert(r[k] == p[k]);
                let i = choose|i: int| 0 <= i < rs.len() && is_last_position(expected, #[trigger] rs[i], p[k]);
                assert(records[i] == rs[i]);
            } else {
                assert(is_last_position(expected, records[records.len() - 1], r[k]));
            }
        }
        assert forall|i: int, j: int| 0 <= i < records.len() && #[trigger] is_last_position(expected, records[i], j)
            implies r.contains(j) by {
            if i < rs.len() {
                assert(is_last_position(expected, rs[i], j));
                assert(p.contains(j));
                let k = choose|k: int| 0 <= k < p.len() && p[k] == j;
                assert(r[k] == j);
            } else {
                assert(records[i] == records.last());
                assert(last_position(expected, records.last()) == Some(j));
                assert(r[r.len() - 1] == j);
            }
        }
    }
}

/// Find the expected UTXOs that a block delivers.
///
/// `records` are the addition records of the block's outputs, `expected`
/// those of the UTXOs the wallet expects. Returns positions in `expected`.
pub fn scan_for_expected_utxos(records: &Vec<Digest>, expected: &Vec<Digest>) -> (res: Vec<usize>)
    ensures
        res@.map_values(|j: usize| j as int) == delivered_expected(records@, expected@),
        res@.len() == num_matching(records@, expected@),
        forall|i: int, j: int| 0 <= i < records@.len() && #[trigger] is_last_position(expected@, records@[i], j)
            ==> res@.map_values(|j: usize| j as int).contains(j),
{
    proof {
        law_delivered_expected(records@, expected@);
    }
    let mut res: Vec<usize> = Vec::new();
    let mut i: usize = 0;
    while i < records.len()
        invariant
            i <= records@.len(),
            res@.map_values(|j: usize| j as int) == delivered_expected(records@.take(i as int), expected@),
        decreases records@.len() - i,
    {
        proof {
            assert(records@.take(i as int + 1).drop_last() =~= records@.take(i as int));
        }
        match find_last(expected, records[i]) {
            Some(j) => {
                let ghost before = res@;
                res.push(j);
                assert(res@.map_values(|j: usize| j as int) =~= before.map_values(|j: usize| j as int).push(j as int));
            },
            None => {},
        }
        i = i + 1;
    }
    assert(records@.take(records@.len() as int) =~= records@);
    res
}

/// Whether a key's announced UTXOs were actually received in a block: at
/// least one of their addition records is among the block's.
///
/// Only then does the key's index count as used.
pub fn any_received(announced: &Vec<Digest>, block_records: &Vec<Digest>) -> (res: bool)
    ensures
        res == exists|i: int| 0 <= i < announced@.len() && block_records@.contains(#[trigger] announced@[i]),
{
    let mut i: usize = 0;
    while i < announced.len()
        invariant
            i <= announced@.len(),
            forall|j: int| 0 <= j < i ==> !block_records@.contains(#[trigger] announced@[j]),
        decreases announced@.len() - i,
    {
        if crate::recovery::contains_digest(block_records, announced[i]) {
            return true;
        }
        i = i + 1;
    }
    false
}

} // verus!
