use ranked_voting::{Candidate, PairwisePreferences};

fn alice() -> Candidate {
    Candidate::from(0)
}

fn bob() -> Candidate {
    Candidate::from(1)
}

fn chad() -> Candidate {
    Candidate::from(2)
}

#[test]
fn lib_ballot_count_forward() {
    let ballots = vec![vec![(alice(), 1), (bob(), 2)]];
    let count = PairwisePreferences::from_ballots(&ballots);
    assert_eq!(*count.counts(), vec![vec![0, 1], vec![0, 0],]);
}

#[test]
fn lib_ballot_count_backward() {
    let ballots = vec![vec![(alice(), 2), (bob(), 1)]];
    let count = PairwisePreferences::from_ballots(&ballots);
    assert_eq!(*count.counts(), vec![vec![0, 0], vec![1, 0],]);
}

#[test]
fn lib_ballot_count_equal() {
    let ballots = vec![vec![(alice(), 1), (bob(), 1)]];
    let count = PairwisePreferences::from_ballots(&ballots);
    assert_eq!(*count.counts(), vec![vec![0, 0], vec![0, 0],]);
}

#[test]
fn lib_ballot_counts() {
    let ballots = vec![
        vec![(alice(), 1), (bob(), 2), (chad(), 3)],
        vec![(alice(), 1), (bob(), 1), (chad(), 3)],
        vec![(alice(), 3), (bob(), 2), (chad(), 1)],
    ];
    let count = PairwisePreferences::from_ballots(&ballots);
    assert_eq!(
        *count.counts(),
        vec![vec![0, 1, 2], vec![1, 0, 2], vec![1, 1, 0],]
    );
}

#[test]
fn main_ballot_count_forward() {
    let ballots = vec![vec![(alice(), 1), (bob(), 2)]];
    let count = PairwisePreferences::from_ballots(&ballots);
    assert_eq!(*count.counts(), vec![vec![0, 1], vec![0, 0],]);
}

#[test]
fn main_ballot_count_backward() {
    let ballots = vec![vec![(alice(), 2), (bob(), 1)]];
    let count = PairwisePreferences::from_ballots(&ballots);
    assert_eq!(*count.counts(), vec![vec![0, 0], vec![1, 0],]);
}

#[test]
fn main_ballot_count_equal() {
    let ballots = vec![vec![(alice(), 1), (bob(), 1)]];
    let count = PairwisePreferences::from_ballots(&ballots);
    assert_eq!(*count.counts(), vec![vec![0, 0], vec![0, 0],]);
}

#[test]
fn main_ballot_counts() {
    let ballots = vec![
        vec![(alice(), 1), (bob(), 2), (chad(), 3)],
        vec![(alice(), 1), (bob(), 1), (chad(), 3)],
        vec![(alice(), 3), (bob(), 2), (chad(), 1)],
    ];
    let count = PairwisePreferences::from_ballots(&ballots);
    assert_eq!(
        *count.counts(),
        vec![vec![0, 1, 2], vec![1, 0, 2], vec![1, 1, 0],]
    );
}

#[test]
fn new_counts_are_zero() {
    let count = PairwisePreferences::new(3);
    assert_eq!(count.num_candidates(), 3);
    assert_eq!(*count.counts(), vec![vec![0; 3]; 3]);
    let none = PairwisePreferences::new(0);
    assert_eq!(none.num_candidates(), 0);
    assert_eq!(*none.counts(), Vec::<Vec<i32>>::new());
}

#[test]
fn candidates_are_listed_by_ascending_handle() {
    let count = PairwisePreferences::new(4);
    assert_eq!(
        count.candidates(),
        vec![
            Candidate::from(0),
            Candidate::from(1),
            Candidate::from(2),
            Candidate::from(3)
        ]
    );
    assert_eq!(PairwisePreferences::new(0).candidates(), Vec::<Candidate>::new());
}

#[test]
fn count_ballot_adds_to_the_counts() {
    let mut count = PairwisePreferences::new(3);
    count.count_ballot(&[(chad(), 1), (alice(), 2)]);
    assert_eq!(
        *count.counts(),
        vec![vec![0, 0, 0], vec![0, 0, 0], vec![1, 0, 0]]
    );
    count.count_ballot(&[(chad(), 1), (alice(), 2), (bob(), 0)]);
    assert_eq!(
        *count.counts(),
        vec![vec![0, 0, 0], vec![1, 0, 1], vec![2, 0, 0]]
    );
    count.count_ballot(&[]);
    count.count_ballot(&[(bob(), 5)]);
    assert_eq!(
        *count.counts(),
        vec![vec![0, 0, 0], vec![1, 0, 1], vec![2, 0, 0]]
    );
}

#[test]
fn unranked_candidates_are_never_compared() {
    // Nobody ranks Bob: his row and his column stay at zero. The highest
    // handle on a ballot, Chad's, sets the number of candidates.
    let ballots = vec![
        vec![(alice(), 1), (chad(), 2)],
        vec![(chad(), 1), (alice(), 2)],
        vec![(alice(), 1), (chad(), 2)],
        vec![],
    ];
    let count = PairwisePreferences::from_ballots(&ballots);
    assert_eq!(count.num_candidates(), 3);
    assert_eq!(
        *count.counts(),
        vec![vec![0, 0, 2], vec![0, 0, 0], vec![1, 0, 0]]
    );
}

#[test]
fn no_ballots_leave_one_candidate_and_no_preference() {
    let count = PairwisePreferences::from_ballots(&[]);
    assert_eq!(*count.counts(), vec![vec![0]]);
}
