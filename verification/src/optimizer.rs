//! The local-search optimizer: pairwise swaps that strictly lower the sum of
//! squared preference ranks, swept until no improving swap remains, followed
//! by track finalization and ordering by identifier.

use vstd::prelude::*;

use crate::resident::{
    valid_rank_list, element_to_track, rank_of, spec_cost, rank_list_is_valid, Resident,
    MAX_RESIDENTS,
};

verus! {

/// The error a run aborts with: some resident's rank list is not a
/// permutation of the tracks `1..=n`.
#[derive(Debug, PartialEq, Eq, Structural)]
pub enum RankError {
    InvalidRankList,
}

/// The cost of the residents' order at position `i`: the occupant's cost for
/// track `i + 1`.
pub open spec fn cost_at(rs: Seq<Resident>, i: int) -> int {
    spec_cost(rs[i], (i + 1) as i32)
}

/// The sum of `cost_at` over the first `k` positions.
pub open spec fn total_cost_prefix(rs: Seq<Resident>, k: int) -> int
    decreases k,
{
    if k <= 0 {
        0
    } else {
        total_cost_prefix(rs, k - 1) + cost_at(rs, k - 1)
    }
}

/// The objective the optimizer minimizes: the sum over all positions of the
/// occupant's squared rank for the track that position stands for.
pub open spec fn total_cost(rs: Seq<Resident>) -> int {
    total_cost_prefix(rs, rs.len() as int)
}

/// Every resident holds a rank list that is a permutation of `1..=n`, where
/// `n` is the number of residents.
pub open spec fn all_valid(rs: Seq<Resident>) -> bool {
    forall|p: int| 0 <= p < rs.len() ==> valid_rank_list((#[trigger] rs[p]).rank_list@, rs.len() as int)
}

/// Exchanging the occupants of positions `i` and `j` strictly lowers the sum
/// of their two costs.
pub open spec fn improves(rs: Seq<Resident>, i: int, j: int) -> bool {
    spec_cost(rs[j], (i + 1) as i32) + spec_cost(rs[i], (j + 1) as i32)
        < spec_cost(rs[i], (i + 1) as i32) + spec_cost(rs[j], (j + 1) as i32)
}

/// No single pairwise swap lowers the objective: a local optimum.
pub open spec fn is_local_opt(rs: Seq<Resident>) -> bool {
    forall|i: int, j: int| 0 <= i < j < rs.len() ==> !#[trigger] improves(rs, i, j)
}

proof fn lemma_square_nonneg(x: int)
    ensures
        x * x >= 0,
{
    assert(x * x >= 0) by (nonlinear_arith);
}

/// Every prefix sum of costs is non-negative, since each cost is a square.
proof fn lemma_total_cost_prefix_nonneg(rs: Seq<Resident>, k: int)
    ensures
        total_cost_prefix(rs, k) >= 0,
    decreases k,
{
    if k > 0 {
        lemma_total_cost_prefix_nonneg(rs, k - 1);
        lemma_square_nonneg(rank_of(rs[k - 1].rank_list@, k as i32));
    }
}

proof fn lemma_total_cost_prefix_two_point(
    rs1: Seq<Resident>,
    rs2: Seq<Resident>,
    i: int,
    j: int,
    k: int,
)
    requires
        rs1.len() == rs2.len(),
        0 <= i < j < rs1.len(),
        forall|m: int| 0 <= m < rs1.len() && m != i && m != j ==> rs1[m] == rs2[m],
        0 <= k <= rs1.len(),
    ensures
        k <= i ==> total_cost_prefix(rs2, k) == total_cost_prefix(rs1, k),
        i < k <= j ==> total_cost_prefix(rs2, k) == total_cost_prefix(rs1, k) - cost_at(rs1, i)
            + cost_at(rs2, i),
        j < k ==> total_cost_prefix(rs2, k) == total_cost_prefix(rs1, k) - cost_at(rs1, i)
            - cost_at(rs1, j) + cost_at(rs2, i) + cost_at(rs2, j),
    decreases k,
{
    if k > 0 {
        lemma_total_cost_prefix_two_point(rs1, rs2, i, j, k - 1);
        if k - 1 != i && k - 1 != j {
            assert(rs1[k - 1] == rs2[k - 1]);
        }
    }
}

/// Two orders that differ only at positions `i` and `j` differ in objective
/// exactly by the change of the two costs at `i` and `j`.
proof fn lemma_total_cost_two_point(rs1: Seq<Resident>, rs2: Seq<Resident>, i: int, j: int)
    requires
        rs1.len() == rs2.len(),
        0 <= i < j < rs1.len(),
        forall|m: int| 0 <= m < rs1.len() && m != i && m != j ==> rs1[m] == rs2[m],
    ensures
        total_cost(rs2) == total_cost(rs1) - cost_at(rs1, i) - cost_at(rs1, j) + cost_at(rs2, i)
            + cost_at(rs2, j),
{
    lemma_total_cost_prefix_two_point(rs1, rs2, i, j, rs1.len() as int);
}

/// `p` precedes `q` in the sweep order: ascending first position, then
/// ascending second position.
pub open spec fn pair_lt(p: (usize, usize), q: (usize, usize)) -> bool {
    p.0 < q.0 || (p.0 == q.0 && p.1 < q.1)
}

/// Every listed pair is a position pair `(i, j)` with `i < j < n`.
pub open spec fn pairs_valid(ps: Seq<(usize, usize)>, n: int) -> bool {
    forall|k: int| 0 <= k < ps.len() ==> (#[trigger] ps[k]).0 < ps[k].1 && (ps[k].1 as int) < n
}

/// Every position pair `(i, j)` with `i < j < n` is listed.
pub open spec fn pairs_complete(ps: Seq<(usize, usize)>, n: int) -> bool {
    forall|i: int, j: int| 0 <= i < j < n ==> #[trigger] ps.contains((i as usize, j as usize))
}

/// The pairs stand in strictly ascending sweep order.
pub open spec fn pairs_ascending(ps: Seq<(usize, usize)>) -> bool {
    forall|k1: int, k2: int| 0 <= k1 < k2 < ps.len() ==> pair_lt(#[trigger] ps[k1], #[trigger] ps[k2])
}

/// Enumerates the neighborhood: all position pairs `(i, j)` with
/// `0 <= i < j < n`, in ascending sweep order; there are `n * (n - 1) / 2`.
pub fn generate_unique_pairs(n: usize) -> (pairs: Vec<(usize, usize)>)
    ensures
        pairs_valid(pairs@, n as int),
        pairs_complete(pairs@, n as int),
        pairs_ascending(pairs@),
        2 * pairs@.len() == (n as int) * (n as int - 1),
{
    broadcast use vstd::seq_lib::group_seq_properties;

    let mut pairs: Vec<(usize, usize)> = Vec::new();
    let mut i: usize = 0;
    while i < n
        invariant
            i <= n,
            pairs_valid(pairs@, n as int),
            pairs_ascending(pairs@),
            forall|k: int| 0 <= k < pairs@.len() ==> (#[trigger] pairs@[k]).0 < i,
            forall|a: int, b: int|
                0 <= a < b < n && a < i ==> #[trigger] pairs@.contains((a as usize, b as usize)),
            2 * pairs@.len() == (i as int) * (2 * (n as int) - (i as int) - 1),
        decreases n - i,
    {
        let mut j: usize = i + 1;
        while j < n
            invariant
                i < n,
                i < j <= n,
                pairs_valid(pairs@, n as int),
                pairs_ascending(pairs@),
                forall|k: int|
                    0 <= k < pairs@.len() ==> (#[trigger] pairs@[k]).0 < i || (pairs@[k].0 == i
                        && pairs@[k].1 < j),
                forall|a: int, b: int|
                    0 <= a < b < n && a < i ==> #[trigger] pairs@.contains((a as usize, b as usize)),
                forall|b: int|
                    i < b < j ==> #[trigger] pairs@.contains((i as usize, b as usize)),
                2 * pairs@.len() == (i as int) * (2 * (n as int) - (i as int) - 1) + 2 * ((j as int)
                    - (i as int) - 1),
            decreases n - j,
        {
            let ghost prev = pairs@;
            pairs.push((i, j));
            proof {
                assert forall|a: int, b: int|
                    0 <= a < b < n && (a < i || (a == i && b <= j)) implies #[trigger] pairs@.contains(
                    (a as usize, b as usize),
                ) by {
                    if a == i as int && b == j as int {
                        assert(pairs@[prev.len() as int] == (i, j));
                    } else {
                        assert(prev.contains((a as usize, b as usize)));
                        let k = choose|k: int|
                            0 <= k < prev.len() && prev[k] == (a as usize, b as usize);
                        assert(pairs@[k] == (a as usize, b as usize));
                    }
                }
                assert forall|k1: int, k2: int| 0 <= k1 < k2 < pairs@.len() implies pair_lt(
                    pairs@[k1],
                    pairs@[k2],
                ) by {
                    assert(pairs@[k1] == prev[k1]);
                    if k2 < pairs@.len() - 1 {
                        assert(pairs@[k2] == prev[k2]);
                    }
                }
            }
            j += 1;
        }
        proof {
            let ii = i as int;
            let nn = n as int;
            let ll = pairs@.len() as int;
            assert(2 * ll == (ii + 1) * (2 * nn - (ii + 1) - 1)) by (nonlinear_arith)
                requires
                    2 * ll == ii * (2 * nn - ii - 1) + 2 * (nn - ii - 1),
            ;
        }
        i += 1;
    }
    pairs
}

/// Exchanges the occupants of positions `i` and `j`, leaving every other
/// position as it was.
fn swap_positions(residents: &mut Vec<Resident>, i: usize, j: usize)
    requires
        i < j < old(residents)@.len(),
    ensures
        final(residents)@ == old(residents)@.update(i as int, old(residents)@[j as int]).update(
            j as int,
            old(residents)@[i as int],
        ),
        final(residents)@.len() == old(residents)@.len(),
        final(residents)@.to_multiset() == old(residents)@.to_multiset(),
{
    broadcast use vstd::seq_lib::group_seq_properties;

    let ghost rs0 = residents@;
    let rj = residents.remove(j);
    let ri = residents.remove(i);
    residents.insert(i, rj);
    residents.insert(j, ri);
    proof {
        let rs2 = rs0.update(i as int, rs0[j as int]).update(j as int, rs0[i as int]);
        assert(residents@ =~= rs2);
        assert(rs0.contains(rs0[i as int]));
        assert(rs0.contains(rs0[j as int]));
        assert(rs0.to_multiset().count(rs0[i as int]) > 0);
        assert(rs0.to_multiset().count(rs0[j as int]) > 0);
        assert(rs2.to_multiset() =~= rs0.to_multiset());
    }
}

/// Position `pos` can be scored for resident `r`: the track `pos + 1` occurs
/// on `r`'s rank list, and the list is short enough for the squared rank to
/// fit an `i32`.
pub open spec fn can_score(r: Resident, pos: int) -> bool {
    &&& r.rank_list@.len() <= MAX_RESIDENTS as int
    &&& r.rank_list@.contains((pos + 1) as i32)
}

/// Swaps the occupants of the two positions exactly when doing so strictly
/// lowers the sum of their two costs; ties and losses leave the order as it
/// was.
pub fn swap_residents_if_better(residents: &mut Vec<Resident>, pair: (usize, usize)) -> (swapped:
    bool)
    requires
        pair.0 < pair.1,
        (pair.1 as int) < old(residents)@.len(),
        old(residents)@.len() <= MAX_RESIDENTS as int,
        can_score(old(residents)@[pair.0 as int], pair.0 as int),
        can_score(old(residents)@[pair.0 as int], pair.1 as int),
        can_score(old(residents)@[pair.1 as int], pair.0 as int),
        can_score(old(residents)@[pair.1 as int], pair.1 as int),
    ensures
        swapped == improves(old(residents)@, pair.0 as int, pair.1 as int),
        swapped ==> final(residents)@ == old(residents)@.update(
            pair.0 as int,
            old(residents)@[pair.1 as int],
        ).update(pair.1 as int, old(residents)@[pair.0 as int]),
        !swapped ==> final(residents)@ == old(residents)@,
        final(residents)@.len() == old(residents)@.len(),
        final(residents)@.to_multiset() == old(residents)@.to_multiset(),
        total_cost(final(residents)@) <= total_cost(old(residents)@),
        swapped ==> total_cost(final(residents)@) < total_cost(old(residents)@),
{
    let r1_old = residents[pair.0].score(pair.0);
    let r2_old = residents[pair.1].score(pair.1);
    let old_score = r1_old + r2_old;
    let r1_new = residents[pair.1].score(pair.0);
    let r2_new = residents[pair.0].score(pair.1);
    let new_score = r1_new + r2_new;
    if new_score < old_score {
        let ghost rs0 = residents@;
        swap_positions(residents, pair.0, pair.1);
        proof {
            let i = pair.0 as int;
            let j = pair.1 as int;
            lemma_total_cost_two_point(rs0, residents@, i, j);
            assert(cost_at(residents@, i) == spec_cost(rs0[j], (i + 1) as i32));
            assert(cost_at(residents@, j) == spec_cost(rs0[i], (j + 1) as i32));
        }
        return true;
    }
    false
}

/// One full sweep over the neighborhood: each pair is tried in order and
/// swapped exactly when that strictly lowers the objective; the objective
/// never increases across the sweep, and strictly decreases when any swap
/// was applied.  A sweep that applies no swap certifies a local optimum.
pub fn optimize_pass(residents: &mut Vec<Resident>, pairs: &Vec<(usize, usize)>) -> (swapped: bool)
    requires
        old(residents)@.len() <= MAX_RESIDENTS as int,
        all_valid(old(residents)@),
        pairs_valid(pairs@, old(residents)@.len() as int),
        pairs_complete(pairs@, old(residents)@.len() as int),
    ensures
        final(residents)@.len() == old(residents)@.len(),
        all_valid(final(residents)@),
        final(residents)@.to_multiset() == old(residents)@.to_multiset(),
        total_cost(final(residents)@) <= total_cost(old(residents)@),
        swapped ==> total_cost(final(residents)@) < total_cost(old(residents)@),
        !swapped ==> final(residents)@ == old(residents)@ && is_local_opt(final(residents)@),
        is_local_opt(old(residents)@) ==> !swapped,
{
    let n = residents.len();
    let mut swapped = false;
    let mut k: usize = 0;
    while k < pairs.len()
        invariant
            k <= pairs@.len(),
            residents@.len() == n,
            old(residents)@.len() == n,
            n <= MAX_RESIDENTS,
            all_valid(residents@),
            pairs_valid(pairs@, n as int),
            residents@.to_multiset() == old(residents)@.to_multiset(),
            total_cost(residents@) <= total_cost(old(residents)@),
            swapped ==> total_cost(residents@) < total_cost(old(residents)@),
            !swapped ==> residents@ == old(residents)@,
            !swapped ==> forall|m: int|
                0 <= m < k ==> !improves(
                    residents@,
                    (#[trigger] pairs@[m]).0 as int,
                    pairs@[m].1 as int,
                ),
            is_local_opt(old(residents)@) ==> !swapped,
        decreases pairs@.len() - k,
    {
        let pair = pairs[k];
        proof {
            let i = pair.0 as int;
            let j = pair.1 as int;
            assert(valid_rank_list(residents@[i].rank_list@, n as int));
            assert(valid_rank_list(residents@[j].rank_list@, n as int));
            assert(residents@[i].rank_list@.contains((i + 1) as i32));
            assert(residents@[i].rank_list@.contains((j + 1) as i32));
            assert(residents@[j].rank_list@.contains((i + 1) as i32));
            assert(residents@[j].rank_list@.contains((j + 1) as i32));
            if is_local_opt(old(residents)@) && !swapped {
                assert(!improves(residents@, i, j));
            }
        }
        let ghost prev = residents@;
        let s = swap_residents_if_better(residents, pair);
        if s {
            swapped = true;
            proof {
                let i = pair.0 as int;
                let j = pair.1 as int;
                assert forall|p: int| 0 <= p < residents@.len() implies valid_rank_list(
                    (#[trigger] residents@[p]).rank_list@,
                    n as int,
                ) by {
                    if p != i && p != j {
                        assert(residents@[p] == prev[p]);
                    }
                }
            }
        }
        k += 1;
    }
    proof {
        if !swapped {
            assert forall|i: int, j: int| 0 <= i < j < residents@.len() implies !#[trigger] improves(
                residents@,
                i,
                j,
            ) by {
                assert(pairs@.contains((i as usize, j as usize)));
                let m = choose|m: int|
                    0 <= m < pairs@.len() && pairs@[m] == (i as usize, j as usize);
                assert(!improves(residents@, pairs@[m].0 as int, pairs@[m].1 as int));
            }
        }
    }
    swapped
}

/// Local search to convergence.
///
/// Rejects the whole batch when any rank list is not a permutation of the
/// tracks `1..=n`, leaving the order untouched.  Otherwise sweeps the
/// neighborhood until a full sweep applies no swap; the order that remains
/// is a permutation of the input in which no pairwise swap lowers the
/// objective, and its objective is no higher than the input's.  Running it
/// on an already converged order changes nothing.
pub fn optimize(residents: &mut Vec<Resident>) -> (result: Result<(), RankError>)
    requires
        old(residents)@.len() <= MAX_RESIDENTS as int,
    ensures
        result is Ok <==> all_valid(old(residents)@),
        result is Err ==> final(residents)@ == old(residents)@,
        final(residents)@.len() == old(residents)@.len(),
        final(residents)@.to_multiset() == old(residents)@.to_multiset(),
        total_cost(final(residents)@) <= total_cost(old(residents)@),
        result is Ok ==> is_local_opt(final(residents)@),
        is_local_opt(old(residents)@) ==> final(residents)@ == old(residents)@,
{
    let n = residents.len();
    let mut p: usize = 0;
    while p < n
        invariant
            p <= n,
            n == residents@.len(),
            n <= MAX_RESIDENTS,
            residents@ == old(residents)@,
            forall|q: int|
                0 <= q < p ==> valid_rank_list((#[trigger] residents@[q]).rank_list@, n as int),
        decreases n - p,
    {
        if !rank_list_is_valid(&residents[p].rank_list, n) {
            proof {
                assert(!valid_rank_list(residents@[p as int].rank_list@, n as int));
                assert(!all_valid(residents@));
            }
            return Err(RankError::InvalidRankList);
        }
        p += 1;
    }
    let pairs = generate_unique_pairs(n);
    loop
        invariant
            residents@.len() == n,
            old(residents)@.len() == n,
            n <= MAX_RESIDENTS,
            all_valid(residents@),
            all_valid(old(residents)@),
            pairs_valid(pairs@, n as int),
            pairs_complete(pairs@, n as int),
            residents@.to_multiset() == old(residents)@.to_multiset(),
            total_cost(residents@) <= total_cost(old(residents)@),
            is_local_opt(old(residents)@) ==> residents@ == old(residents)@,
        ensures
            residents@.len() == n,
            all_valid(old(residents)@),
            residents@.to_multiset() == old(residents)@.to_multiset(),
            total_cost(residents@) <= total_cost(old(residents)@),
            is_local_opt(residents@),
            is_local_opt(old(residents)@) ==> residents@ == old(residents)@,
        decreases total_cost(residents@),
    {
        proof {
            lemma_total_cost_prefix_nonneg(residents@, residents@.len() as int);
        }
        let swapped = optimize_pass(residents, &pairs);
        if !swapped {
            break;
        }
        proof {
            lemma_total_cost_prefix_nonneg(residents@, residents@.len() as int);
        }
    }
    Ok(())
}

/// Binds each position to its track: the resident at position `i` is
/// assigned track `i + 1`.  Identifiers and rank lists are untouched, so
/// re-running it on the same order changes nothing.
pub fn assign_tracks(residents: &mut Vec<Resident>)
    requires
        old(residents)@.len() <= i32::MAX as int,
    ensures
        final(residents)@.len() == old(residents)@.len(),
        forall|i: int|
            0 <= i < old(residents)@.len() ==> {
                &&& (#[trigger] final(residents)@[i]).id == old(residents)@[i].id
                &&& final(residents)@[i].rank_list == old(residents)@[i].rank_list
                &&& final(residents)@[i].track == Some((i + 1) as i32)
            },
{
    let n = residents.len();
    let mut i: usize = 0;
    while i < n
        invariant
            i <= n,
            residents@.len() == n,
            n as int <= i32::MAX as int,
            forall|q: int|
                0 <= q < i ==> {
                    &&& (#[trigger] residents@[q]).id == old(residents)@[q].id
                    &&& residents@[q].rank_list == old(residents)@[q].rank_list
                    &&& residents@[q].track == Some((q + 1) as i32)
                },
            forall|q: int| i <= q < n ==> residents@[q] == old(residents)@[q],
        decreases n - i,
    {
        let ghost prev = residents@;
        let track = element_to_track(i);
        let mut r = residents.remove(i);
        r.track = Some(track);
        residents.insert(i, r);
        proof {
            assert(residents@ =~= prev.update(i as int, residents@[i as int]));
        }
        i += 1;
    }
}

/// Assignment is a bijection: once every position `i` carries track `i + 1`,
/// no two residents share a track, and for each track `t` in `1..=n` the
/// resident at position `t - 1` holds exactly that track.
pub proof fn lemma_assigned_tracks_bijective(rs: Seq<Resident>)
    requires
        rs.len() <= i32::MAX as int,
        forall|i: int| 0 <= i < rs.len() ==> (#[trigger] rs[i]).track == Some((i + 1) as i32),
    ensures
        forall|i: int, j: int|
            0 <= i < j < rs.len() ==> (#[trigger] rs[i]).track != (#[trigger] rs[j]).track,
        forall|t: int| 1 <= t <= rs.len() ==> (#[trigger] rs[t - 1]).track == Some(t as i32),
{
    assert forall|i: int, j: int| 0 <= i < j < rs.len() implies (#[trigger] rs[i]).track != (
    #[trigger] rs[j]).track by {
        assert(rs[i].track == Some((i + 1) as i32));
        assert(rs[j].track == Some((j + 1) as i32));
        assert((i + 1) as i32 != (j + 1) as i32);
    }
}

/// The residents stand in ascending order of identifier.
pub open spec fn sorted_by_id(rs: Seq<Resident>) -> bool {
    forall|a: int, b: int| 0 <= a < b < rs.len() ==> (#[trigger] rs[a]).id <= (#[trigger] rs[b]).id
}

/// Reorders the residents by ascending identifier, keeping exactly the same
/// residents.
pub fn sort_residents_by_id(residents: &mut Vec<Resident>)
    ensures
        final(residents)@.len() == old(residents)@.len(),
        final(residents)@.to_multiset() == old(residents)@.to_multiset(),
        sorted_by_id(final(residents)@),
{
    let n = residents.len();
    if n < 2 {
        return;
    }
    let mut i: usize = 1;
    while i < n
        invariant
            1 <= i <= n,
            residents@.len() == n,
            residents@.to_multiset() == old(residents)@.to_multiset(),
            forall|a: int, b: int|
                0 <= a < b < i ==> (#[trigger] residents@[a]).id <= (#[trigger] residents@[b]).id,
        decreases n - i,
    {
        let mut j: usize = i;
        while j > 0 && residents[j - 1].id > residents[j].id
            invariant
                j <= i < n,
                residents@.len() == n,
                residents@.to_multiset() == old(residents)@.to_multiset(),
                forall|a: int, b: int|
                    0 <= a < b <= i && a != j && b != j ==> (#[trigger] residents@[a]).id <= (
                    #[trigger] residents@[b]).id,
                forall|b: int|
                    j < b <= i ==> (#[trigger] residents@[b]).id >= residents@[j as int].id,
            decreases j,
        {
            let ghost prev = residents@;
            swap_positions(residents, j - 1, j);
            proof {
                assert forall|a: int, b: int|
                    0 <= a < b <= i && a != j - 1 && b != j - 1 implies (
                #[trigger] residents@[a]).id <= (#[trigger] residents@[b]).id by {
                    if a != j as int && b != j as int {
                        assert(residents@[a] == prev[a]);
                        assert(residents@[b] == prev[b]);
                    } else if b == j as int {
                        assert(residents@[b] == prev[j - 1]);
                        if a != j - 1 {
                            assert(residents@[a] == prev[a]);
                        }
                    } else {
                        assert(residents@[a] == prev[j - 1]);
                        assert(residents@[b] == prev[b]);
                    }
                }
            }
            j -= 1;
        }
        proof {
            assert forall|a: int, b: int| 0 <= a < b <= i implies (#[trigger] residents@[a]).id
                <= (#[trigger] residents@[b]).id by {
                if b == j as int && 0 < a + 1 < b {
                    assert(residents@[a].id <= residents@[b - 1].id);
                }
            }
        }
        i += 1;
    }
}

} // verus!
