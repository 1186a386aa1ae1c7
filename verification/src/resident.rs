//! The entity data model: a resident with an ordered rank list over tracks,
//! together with the scoring rules that the optimizer minimizes.

use vstd::prelude::*;

verus! {

/// The largest number of residents (and so of tracks) the library accepts.
///
/// With at most this many tracks, a zero-based rank is at most 32767, so a
/// squared rank is at most 32767 * 32767 and the sum of two squared ranks
/// still fits in an `i32`.
pub const MAX_RESIDENTS: usize = 32768;

/// A resident: an external identifier, an ordered rank list over tracks
/// (most preferred first), and the track finally assigned, if any.
pub struct Resident {
    pub id: i32,
    pub rank_list: Vec<i32>,
    pub track: Option<i32>,
}

impl Resident {
    /// Builds a resident that has not yet been assigned a track.
    pub fn new(id: i32, rank_list: Vec<i32>) -> (r: Resident)
        ensures
            r.id == id,
            r.rank_list == rank_list,
            r.track is None,
    {
        Resident { id, rank_list, track: None }
    }
}

/// The zero-based index of the first occurrence of `track` in `s`
/// (`s.len()` if `track` does not occur).
pub open spec fn rank_of(s: Seq<i32>, track: i32) -> int
    decreases s.len(),
{
    if s.len() == 0 {
        0
    } else if s[0] == track {
        0
    } else {
        1 + rank_of(s.subrange(1, s.len() as int), track)
    }
}

/// `rank_of` returns the first index holding `track` whenever `track` occurs.
pub proof fn lemma_rank_of_properties(s: Seq<i32>, track: i32)
    requires
        s.contains(track),
    ensures
        0 <= rank_of(s, track) < s.len(),
        s[rank_of(s, track)] == track,
        forall|m: int| 0 <= m < rank_of(s, track) ==> s[m] != track,
    decreases s.len(),
{
    if s.len() == 0 {
    } else if s[0] == track {
    } else {
        let tail = s.subrange(1, s.len() as int);
        let w = choose|w: int| 0 <= w < s.len() && s[w] == track;
        assert(tail[w - 1] == track);
        lemma_rank_of_properties(tail, track);
        assert forall|m: int| 0 <= m < rank_of(s, track) implies s[m] != track by {
            if m > 0 {
                assert(tail[m - 1] != track);
            }
        }
    }
}

/// The first index holding `track` is unique, so any index that holds `track`
/// with no earlier occurrence is `rank_of`.
pub proof fn lemma_rank_of_unique(s: Seq<i32>, track: i32, k: int)
    requires
        0 <= k < s.len(),
        s[k] == track,
        forall|m: int| 0 <= m < k ==> s[m] != track,
    ensures
        rank_of(s, track) == k,
{
    assert(s.contains(track));
    lemma_rank_of_properties(s, track);
    let r = rank_of(s, track);
    if r < k {
        assert(s[r] != track);
    } else if k < r {
        assert(s[k] != track);
    }
}

/// The track that position `element` stands for: tracks are numbered from 1,
/// positions from 0.
pub fn element_to_track(element: usize) -> (track: i32)
    requires
        element < i32::MAX as usize,
    ensures
        track as int == element as int + 1,
{
    (element as i32) + 1
}

/// The zero-based position of `track` on `rank_list`.
///
/// A track absent from the rank list is malformed input; callers rule it out.
pub fn get_track_position_on_rank_list(track: i32, rank_list: &Vec<i32>) -> (position: i32)
    requires
        rank_list@.contains(track),
        rank_list@.len() <= i32::MAX as int,
    ensures
        position as int == rank_of(rank_list@, track),
        0 <= position,
        (position as int) < rank_list@.len(),
        rank_list@[position as int] == track,
{
    proof {
        lemma_rank_of_properties(rank_list@, track);
    }
    let mut k: usize = 0;
    while k < rank_list.len()
        invariant
            k <= rank_list@.len(),
            rank_list@.len() <= i32::MAX as int,
            rank_list@.contains(track),
            forall|m: int| 0 <= m < k ==> rank_list@[m] != track,
        decreases rank_list@.len() - k,
    {
        if rank_list[k] == track {
            proof {
                lemma_rank_of_unique(rank_list@, track, k as int);
            }
            return k as i32;
        }
        k += 1;
    }
    proof {
        lemma_rank_of_properties(rank_list@, track);
        assert(rank_list@[rank_of(rank_list@, track)] != track);
    }
    unreached()
}

/// The dissatisfaction of resident `r` with `track`: the square of the
/// zero-based rank of `track` on `r`'s rank list.
pub open spec fn spec_cost(r: Resident, track: i32) -> int {
    rank_of(r.rank_list@, track) * rank_of(r.rank_list@, track)
}

/// `s` is a well-formed rank list for `n` tracks: a permutation of `1..=n`.
pub open spec fn valid_rank_list(s: Seq<i32>, n: int) -> bool {
    &&& s.len() == n
    &&& forall|k: int| 0 <= k < n ==> 1 <= (#[trigger] s[k]) as int <= n
    &&& forall|k1: int, k2: int| 0 <= k1 < k2 < n ==> s[k1] != s[k2]
    &&& forall|t: int| 1 <= t <= n ==> #[trigger] s.contains(t as i32)
}

impl Resident {
    /// The cost of placing this resident at position `element`, that is on
    /// track `element + 1`: the squared zero-based rank of that track.
    pub fn score(&self, element: usize) -> (cost: i32)
        requires
            element + 1 < MAX_RESIDENTS as int + 1,
            self.rank_list@.len() <= MAX_RESIDENTS as int,
            self.rank_list@.contains((element + 1) as i32),
        ensures
            cost as int == spec_cost(*self, (element + 1) as i32),
            0 <= cost as int <= 32767 * 32767,
    {
        let track = element_to_track(element);
        let position = get_track_position_on_rank_list(track, &self.rank_list);
        proof {
            assert(0 <= position as int <= 32767);
            assert(position as int * position as int <= 32767 * 32767) by (nonlinear_arith)
                requires
                    0 <= position as int <= 32767,
            ;
        }
        position * position
    }
}

/// Rank-cost monotonicity: a resident's cost for their `k`-th choice
/// (zero-based) is exactly `k * k`, for every index on a duplicate-free
/// rank list.
pub proof fn lemma_cost_of_kth_choice(r: Resident, k: int)
    requires
        0 <= k < r.rank_list@.len(),
        forall|k1: int, k2: int| 0 <= k1 < k2 < r.rank_list@.len() ==> r.rank_list@[k1] != r.rank_list@[k2],
    ensures
        spec_cost(r, r.rank_list@[k]) == k * k,
{
    lemma_rank_of_unique(r.rank_list@, r.rank_list@[k], k);
}

/// Checks that `rank_list` is a permutation of the tracks `1..=n`: right
/// length, every entry in range, no duplicates, every track present.
pub fn rank_list_is_valid(rank_list: &Vec<i32>, n: usize) -> (ok: bool)
    requires
        n <= MAX_RESIDENTS,
    ensures
        ok == valid_rank_list(rank_list@, n as int),
{
    if rank_list.len() != n {
        return false;
    }
    let mut k: usize = 0;
    while k < n
        invariant
            k <= n,
            n <= MAX_RESIDENTS,
            rank_list@.len() == n,
            forall|m: int| 0 <= m < k ==> 1 <= (#[trigger] rank_list@[m]) as int <= n,
        decreases n - k,
    {
        let v = rank_list[k];
        if v < 1 || v > n as i32 {
            return false;
        }
        k += 1;
    }
    let mut k1: usize = 0;
    while k1 < n
        invariant
            k1 <= n,
            n <= MAX_RESIDENTS,
            rank_list@.len() == n,
            forall|a: int, b: int| 0 <= a < b < n && a < k1 ==> rank_list@[a] != rank_list@[b],
        decreases n - k1,
    {
        let mut k2: usize = k1 + 1;
        while k2 < n
            invariant
                k1 < k2 <= n || (k1 + 1 == k2 && k2 > n),
                n <= MAX_RESIDENTS,
                rank_list@.len() == n,
                forall|b: int| k1 < b < k2 ==> rank_list@[k1 as int] != rank_list@[b],
            decreases n - k2,
        {
            if rank_list[k1] == rank_list[k2] {
                return false;
            }
            k2 += 1;
        }
        k1 += 1;
    }
    let mut t: usize = 1;
    while t <= n
        invariant
            1 <= t <= n + 1,
            n <= MAX_RESIDENTS,
            rank_list@.len() == n,
            forall|u: int| 1 <= u < t ==> #[trigger] rank_list@.contains(u as i32),
        decreases n + 1 - t,
    {
        let mut found = false;
        let mut k: usize = 0;
        while k < n
            invariant
                k <= n,
                n <= MAX_RESIDENTS,
                1 <= t <= n,
                rank_list@.len() == n,
                found ==> rank_list@.contains(t as i32),
                !found ==> forall|m: int| 0 <= m < k ==> rank_list@[m] != t as i32,
            decreases n - k,
        {
            if rank_list[k] == t as i32 {
                found = true;
            }
            k += 1;
        }
        if !found {
            proof {
                assert forall|m: int| 0 <= m < rank_list@.len() implies rank_list@[m] != t as i32 by {}
                assert(!rank_list@.contains(t as i32));
            }
            return false;
        }
        t += 1;
    }
    true
}

} // verus!
