use ranked_voting::ballot::sort_ascending;
use ranked_voting::schulze_method::valid_ballot;
use ranked_voting::{all_ballots_unique, highest_id, unique_candidates, Ballot, Candidate};

fn candidate(id: usize) -> Candidate {
    Candidate::from(id)
}

#[test]
fn candidate_keeps_its_handle() {
    assert_eq!(candidate(0).id(), 0);
    assert_eq!(candidate(17).id(), 17);
    assert_eq!(candidate(usize::MAX).id(), usize::MAX);
    assert_eq!(candidate(3), candidate(3));
    assert_ne!(candidate(3), candidate(4));
}

#[test]
fn ballot_without_entries_is_valid() {
    let ballot: Ballot = vec![];
    assert!(unique_candidates(&ballot));
    assert!(valid_ballot(&ballot));
}

#[test]
fn ballot_of_one_entry_is_valid() {
    assert!(unique_candidates(&[(candidate(5), -3)]));
}

#[test]
fn equal_ranks_do_not_make_a_ballot_invalid() {
    let ballot = vec![(candidate(0), 1), (candidate(1), 1), (candidate(2), 1)];
    assert!(unique_candidates(&ballot));
    assert!(valid_ballot(&ballot));
}

#[test]
fn distinct_handles_in_any_order_are_valid() {
    let ballot = vec![
        (candidate(9), 4),
        (candidate(2), i32::MIN),
        (candidate(7), i32::MAX),
        (candidate(0), 0),
        (candidate(4), 4),
    ];
    assert!(unique_candidates(&ballot));
}

#[test]
fn repeated_handle_is_found_wherever_it_stands() {
    let next_to_each_other = vec![(candidate(1), 1), (candidate(1), 2), (candidate(0), 3)];
    assert!(!unique_candidates(&next_to_each_other));
    let far_apart = vec![
        (candidate(3), 1),
        (candidate(0), 2),
        (candidate(2), 3),
        (candidate(1), 4),
        (candidate(3), 5),
    ];
    assert!(!unique_candidates(&far_apart));
    let same_rank_too = vec![(candidate(6), 2), (candidate(6), 2)];
    assert!(!unique_candidates(&same_rank_too));
    assert!(!valid_ballot(&same_rank_too));
    let three_times = vec![(candidate(0), 1), (candidate(0), 2), (candidate(0), 3)];
    assert!(!unique_candidates(&three_times));
}

#[test]
fn every_ballot_is_checked() {
    let none: Vec<Ballot> = vec![];
    assert!(all_ballots_unique(&none));
    let good = vec![
        vec![(candidate(0), 1), (candidate(1), 2)],
        vec![],
        vec![(candidate(1), 1), (candidate(0), 1)],
    ];
    assert!(all_ballots_unique(&good));
    let last_is_bad = vec![
        vec![(candidate(0), 1), (candidate(1), 2)],
        vec![(candidate(1), 1), (candidate(1), 1)],
    ];
    assert!(!all_ballots_unique(&last_is_bad));
    let first_is_bad = vec![
        vec![(candidate(2), 1), (candidate(2), 2)],
        vec![(candidate(1), 1)],
    ];
    assert!(!all_ballots_unique(&first_is_bad));
}

#[test]
fn highest_id_is_the_largest_handle() {
    let none: Vec<Ballot> = vec![];
    assert_eq!(highest_id(&none), 0);
    let empty_ballots: Vec<Ballot> = vec![vec![], vec![]];
    assert_eq!(highest_id(&empty_ballots), 0);
    let ballots = vec![
        vec![(candidate(1), 1), (candidate(4), 2)],
        vec![(candidate(7), 1)],
        vec![(candidate(3), 1), (candidate(0), 5)],
    ];
    assert_eq!(highest_id(&ballots), 7);
    let only_zero = vec![vec![(candidate(0), 9)]];
    assert_eq!(highest_id(&only_zero), 0);
}

#[test]
fn sort_ascending_orders_and_keeps_every_value() {
    assert_eq!(sort_ascending(&vec![]), Vec::<usize>::new());
    assert_eq!(sort_ascending(&vec![4]), vec![4]);
    assert_eq!(sort_ascending(&vec![2, 1]), vec![1, 2]);
    assert_eq!(
        sort_ascending(&vec![5, 3, 9, 3, 0, 7, 5, 5, 1]),
        vec![0, 1, 3, 3, 5, 5, 5, 7, 9]
    );
    assert_eq!(
        sort_ascending(&vec![usize::MAX, 0, usize::MAX - 1]),
        vec![0, usize::MAX - 1, usize::MAX]
    );
}
