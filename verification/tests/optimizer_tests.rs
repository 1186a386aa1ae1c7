use rank_optimizer::optimizer::{
    assign_tracks, generate_unique_pairs, optimize, optimize_pass, sort_residents_by_id,
    swap_residents_if_better, RankError,
};
use rank_optimizer::resident::{element_to_track, get_track_position_on_rank_list, Resident};

#[test]
fn test_sort_residents_by_id() {
    // Create a list of residents
    // Sort the list by id
    // The list should be sorted by id
    let r1 = Resident::new(2, vec![1, 2, 3]);
    let r2 = Resident::new(1, vec![2, 1, 3]);
    let mut residents = vec![r1, r2];
    sort_residents_by_id(&mut residents);
    assert_eq!(residents[0].id, 1);
    assert_eq!(residents[1].id, 2);
}

#[test]
fn test_assign_tracks() {
    // Create a list of residents
    // Assign tracks to the residents
    // The tracks should be assigned in order
    let r1 = Resident::new(1, vec![1, 2]);
    let r2 = Resident::new(2, vec![2, 1]);
    let mut residents = vec![r1, r2];
    assign_tracks(&mut residents);
    assert_eq!(residents[0].track, Some(1));
    assert_eq!(residents[1].track, Some(2));
}

#[test]
fn test_optimize1() {
    // Create a list of residents
    // Optimize the list
    // The list should be sorted by rank
    // We have a tie for first in this one
    // Resident 1 really doesn't want the second track, so
    // the list should be [2, 1, 3]
    let r1 = Resident::new(1, vec![1, 3, 2]);
    let r2 = Resident::new(2, vec![1, 2, 3]);
    let r3 = Resident::new(3, vec![3, 1, 2]);
    let mut residents = vec![r1, r2, r3];
    optimize(&mut residents).unwrap();
    assert!(residents[0].id == 1); // The resident's first choice
    assert!(residents[1].id == 2); // The resident's second choice
    assert!(residents[2].id == 3); // The resident's first choice
}

#[test]
fn test_optimize() {
    // Create a list of residents
    // Optimize the list
    // The list should be sorted by rank
    let r1 = Resident::new(1, vec![2, 1, 3]);
    let r2 = Resident::new(2, vec![1, 2, 3]);
    let r3 = Resident::new(3, vec![3, 1, 2]);
    let mut residents = vec![r1, r2, r3];
    optimize(&mut residents).unwrap();
    assert!(residents[0].id == 2);
    assert!(residents[1].id == 1);
    assert!(residents[2].id == 3);
}

#[test]
fn test_get_track_position_on_rank_list() {
    let rank_list = vec![1, 2, 3];
    assert_eq!(get_track_position_on_rank_list(1, &rank_list), 0);
    assert_eq!(get_track_position_on_rank_list(2, &rank_list), 1);
    assert_eq!(get_track_position_on_rank_list(3, &rank_list), 2);
}

#[test]
fn test_element_to_track() {
    assert_eq!(element_to_track(0), 1);
    assert_eq!(element_to_track(1), 2);
    assert_eq!(element_to_track(2), 3);
}

#[test]
fn test_generate_unique_pairs() {
    let pairs = generate_unique_pairs(3);
    assert_eq!(pairs, vec![(0, 1), (0, 2), (1, 2)]);
}

#[test]
fn test_record_to_resident() {
    let r1 = Resident::new(1, vec![1, 2]);
    assert_eq!(r1.id, 1);
    assert_eq!(r1.rank_list, vec![1, 2]);
    assert_eq!(r1.track, None);
}

#[test]
fn test_ojective() {
    // Note the best match will have a value of 0
    // The second best match will have a value of 1, then 4, 9, 16, 25, 36, 49, 64, 81, 100
    let r1 = Resident::new(1, vec![2, 1, 3]);
    assert_eq!(r1.score(0), 1);
    assert_eq!(r1.score(1), 0);
    assert_eq!(r1.score(2), 4);
}

#[test]
fn test_swap() {
    // Create a list of residents
    // Swap the first two residents
    let r1 = Resident::new(1, vec![2, 1, 3]);
    let r2 = Resident::new(2, vec![1, 1, 3]);
    let mut rs = vec![r1, r2];
    rs.swap(0, 1);
    assert_eq!(rs[0].id, 2);
    assert_eq!(rs[1].id, 1);
}

#[test]
fn test_swap_residents_if_better() {
    // Create a list of residents
    // r1 would prefer to be in the second position
    // r2 would prefer to be in the first position
    // The swap should be made
    let r1 = Resident::new(1, vec![2, 1, 3]);
    let r2 = Resident::new(2, vec![1, 2, 3]);
    let mut residents = vec![r1, r2];
    let pair: (usize, usize) = (0, 1);
    let result = swap_residents_if_better(&mut residents, pair);
    assert_eq!(residents[0].id, 2);
    assert_eq!(residents[1].id, 1);
    assert_eq!(result, true);
}

#[test]
fn test_swap_residents_if_better1() {
    // Create a list of residents
    // r1 would prefer to be in the first position
    // r2 would prefer to be in the second position
    // The swap should not be made
    let r1 = Resident::new(1, vec![1, 2, 3]);
    let r2 = Resident::new(2, vec![2, 1, 3]);
    let mut residents = vec![r1, r2];
    let pair: (usize, usize) = (0, 1);
    let _result = swap_residents_if_better(&mut residents, pair);
    assert_eq!(residents[0].id, 1);
    assert_eq!(residents[1].id, 2);
}

fn objective(residents: &Vec<Resident>) -> i32 {
    let mut sum: i32 = 0;
    for i in 0..residents.len() {
        sum += residents[i].score(i);
    }
    sum
}

#[test]
fn test_rank_cost_squares() {
    // The cost of the k-th choice (zero-based) is k squared.
    let r = Resident::new(7, vec![4, 3, 2, 1]);
    assert_eq!(r.score(3), 0); // track 4 is the first choice
    assert_eq!(r.score(2), 1);
    assert_eq!(r.score(1), 4);
    assert_eq!(r.score(0), 9); // track 1 is the last choice
}

#[test]
fn test_pass_objective_decreases() {
    // A pass that applies a swap strictly lowers the objective.
    let r1 = Resident::new(1, vec![2, 1, 3]);
    let r2 = Resident::new(2, vec![1, 2, 3]);
    let r3 = Resident::new(3, vec![3, 1, 2]);
    let mut residents = vec![r1, r2, r3];
    let pairs = generate_unique_pairs(residents.len());
    let before = objective(&residents);
    let swapped = optimize_pass(&mut residents, &pairs);
    let after = objective(&residents);
    assert!(swapped);
    assert!(after < before);
}

#[test]
fn test_no_improving_swap_after_optimize() {
    // After convergence no pair of positions can be swapped to lower the
    // objective.
    let r1 = Resident::new(1, vec![2, 1, 3]);
    let r2 = Resident::new(2, vec![1, 2, 3]);
    let r3 = Resident::new(3, vec![3, 1, 2]);
    let mut residents = vec![r1, r2, r3];
    optimize(&mut residents).unwrap();
    for (i, j) in generate_unique_pairs(residents.len()) {
        assert!(!swap_residents_if_better(&mut residents, (i, j)));
    }
}

#[test]
fn test_optimize_idempotent() {
    // Re-running the optimizer on a converged order applies no swap and
    // leaves the order unchanged.
    let r1 = Resident::new(1, vec![2, 1, 3]);
    let r2 = Resident::new(2, vec![1, 2, 3]);
    let r3 = Resident::new(3, vec![3, 1, 2]);
    let mut residents = vec![r1, r2, r3];
    optimize(&mut residents).unwrap();
    let ids_before: Vec<i32> = residents.iter().map(|r| r.id).collect();
    let pairs = generate_unique_pairs(residents.len());
    assert!(!optimize_pass(&mut residents, &pairs));
    optimize(&mut residents).unwrap();
    let ids_after: Vec<i32> = residents.iter().map(|r| r.id).collect();
    assert_eq!(ids_before, ids_after);
}

#[test]
fn test_assigned_tracks_are_a_bijection() {
    // After finalization the assigned tracks are exactly 1..=n, once each.
    let r1 = Resident::new(4, vec![2, 1, 3]);
    let r2 = Resident::new(9, vec![1, 2, 3]);
    let r3 = Resident::new(2, vec![3, 1, 2]);
    let mut residents = vec![r1, r2, r3];
    optimize(&mut residents).unwrap();
    assign_tracks(&mut residents);
    let mut tracks: Vec<i32> = residents.iter().map(|r| r.track.unwrap()).collect();
    tracks.sort();
    assert_eq!(tracks, vec![1, 2, 3]);
}

#[test]
fn test_scenario_perfect_matching() {
    // A zero-cost perfect matching exists and the optimizer finds it.
    let e1 = Resident::new(1, vec![2, 1, 3]);
    let e2 = Resident::new(2, vec![1, 2, 3]);
    let e3 = Resident::new(3, vec![3, 1, 2]);
    let mut residents = vec![e1, e2, e3];
    optimize(&mut residents).unwrap();
    assign_tracks(&mut residents);
    sort_residents_by_id(&mut residents);
    assert_eq!(residents[0].id, 1);
    assert_eq!(residents[0].track, Some(2));
    assert_eq!(
        get_track_position_on_rank_list(residents[0].track.unwrap(), &residents[0].rank_list),
        0
    );
    assert_eq!(residents[1].id, 2);
    assert_eq!(residents[1].track, Some(1));
    assert_eq!(
        get_track_position_on_rank_list(residents[1].track.unwrap(), &residents[1].rank_list),
        0
    );
    assert_eq!(residents[2].id, 3);
    assert_eq!(residents[2].track, Some(3));
    assert_eq!(
        get_track_position_on_rank_list(residents[2].track.unwrap(), &residents[2].rank_list),
        0
    );
}

#[test]
fn test_tie_is_not_swapped() {
    // Two residents with identical rank lists: a swap keeps the total cost
    // the same, so no swap may happen.
    let r1 = Resident::new(1, vec![1, 2]);
    let r2 = Resident::new(2, vec![1, 2]);
    let mut residents = vec![r1, r2];
    assert!(!swap_residents_if_better(&mut residents, (0, 1)));
    optimize(&mut residents).unwrap();
    assert_eq!(residents[0].id, 1);
    assert_eq!(residents[1].id, 2);
}

#[test]
fn test_missing_track_is_rejected() {
    // A rank list that omits a required track aborts the run and leaves the
    // order untouched.
    let r1 = Resident::new(1, vec![1, 1]);
    let r2 = Resident::new(2, vec![2, 1]);
    let mut residents = vec![r1, r2];
    assert_eq!(optimize(&mut residents), Err(RankError::InvalidRankList));
    assert_eq!(residents[0].id, 1);
    assert_eq!(residents[1].id, 2);
    assert_eq!(residents[0].track, None);
}

#[test]
fn test_wrong_length_rank_list_is_rejected() {
    // A rank list over more tracks than there are residents is rejected.
    let r1 = Resident::new(1, vec![1, 2, 3]);
    let r2 = Resident::new(2, vec![2, 1, 3]);
    let mut residents = vec![r1, r2];
    assert_eq!(optimize(&mut residents), Err(RankError::InvalidRankList));
}

#[test]
fn test_optimize_empty() {
    let mut residents: Vec<Resident> = Vec::new();
    assert_eq!(optimize(&mut residents), Ok(()));
    assert!(residents.is_empty());
}

#[test]
fn test_generate_unique_pairs_counts() {
    assert_eq!(generate_unique_pairs(0), vec![]);
    assert_eq!(generate_unique_pairs(1), vec![]);
    assert_eq!(generate_unique_pairs(2), vec![(0, 1)]);
    assert_eq!(generate_unique_pairs(4).len(), 6);
}
