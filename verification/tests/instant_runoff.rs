use ranked_voting::instant_runoff_voting::{
    count_leaders, first_choice_candidate, first_choice_tally, instant_runoff_vote,
    remove_candidate, weakest_leader,
};
use ranked_voting::Candidate;

fn alice() -> Candidate {
    Candidate::from(0)
}

fn bob() -> Candidate {
    Candidate::from(1)
}

fn chad() -> Candidate {
    Candidate::from(2)
}

#[test]
fn simple_instant_runoff_vote() {
    let ballots = vec![
        vec![(alice(), 1), (bob(), 2), (chad(), 3)],
        vec![(alice(), 1), (bob(), 2), (chad(), 3)],
        vec![(chad(), 1), (bob(), 2), (alice(), 3)],
        vec![(bob(), 1), (chad(), 2), (alice(), 3)],
        vec![(bob(), 1), (chad(), 2), (alice(), 3)],
    ];

    let winner = instant_runoff_vote(ballots);
    assert_eq!(winner, bob());
}

#[test]
fn runoff_rounds_of_the_simple_election() {
    let mut ballots = vec![
        vec![(alice(), 1), (bob(), 2), (chad(), 3)],
        vec![(alice(), 1), (bob(), 2), (chad(), 3)],
        vec![(chad(), 1), (bob(), 2), (alice(), 3)],
        vec![(bob(), 1), (chad(), 2), (alice(), 3)],
        vec![(bob(), 1), (chad(), 2), (alice(), 3)],
    ];
    let tally = first_choice_tally(&ballots);
    assert_eq!(tally, vec![2, 2, 1]);
    assert_eq!(count_leaders(&tally), 3);
    assert_eq!(weakest_leader(&tally), chad());

    remove_candidate(&mut ballots, chad());
    assert_eq!(ballots[2], vec![(bob(), 2), (alice(), 3)]);
    let tally = first_choice_tally(&ballots);
    assert_eq!(tally, vec![2, 3]);
    assert_eq!(count_leaders(&tally), 2);
    assert_eq!(weakest_leader(&tally), alice());

    remove_candidate(&mut ballots, alice());
    let tally = first_choice_tally(&ballots);
    assert_eq!(tally, vec![0, 5]);
    assert_eq!(count_leaders(&tally), 1);
    assert_eq!(weakest_leader(&tally), bob());
}

#[test]
fn single_candidate_wins() {
    let ballots = vec![vec![(chad(), 7)]];
    assert_eq!(instant_runoff_vote(ballots), chad());
}

#[test]
fn lowest_rank_is_first_choice() {
    let ballot = vec![(alice(), 3), (bob(), -2), (chad(), 0)];
    assert_eq!(first_choice_candidate(&ballot), bob());
}

#[test]
fn equal_ranks_go_to_the_lowest_handle() {
    let ballot = vec![(chad(), 1), (alice(), 1), (bob(), 1)];
    assert_eq!(first_choice_candidate(&ballot), alice());
    let ballot = vec![(chad(), 1), (bob(), 1), (alice(), 2)];
    assert_eq!(first_choice_candidate(&ballot), bob());
}

#[test]
fn highest_handle_of_the_weakest_is_struck() {
    assert_eq!(weakest_leader(&vec![1, 1, 1]), chad());
    assert_eq!(weakest_leader(&vec![1, 2, 0]), alice());
    assert_eq!(weakest_leader(&vec![0, 3, 0]), bob());
    // One ballot each: Bob is struck, and Alice wins.
    let ballots = vec![vec![(alice(), 1)], vec![(bob(), 1)]];
    assert_eq!(instant_runoff_vote(ballots), alice());
}

#[test]
fn ballot_without_entries_counts_for_nobody() {
    let ballots = vec![vec![], vec![(bob(), 1), (alice(), 2)], vec![]];
    assert_eq!(first_choice_tally(&ballots), vec![0, 1]);
    assert_eq!(instant_runoff_vote(ballots), bob());
}

#[test]
fn ballot_emptied_by_a_removal_counts_for_nobody() {
    // Chad has the fewest first choices. His only voter ranked nobody
    // else, so that ballot is empty in the second round.
    let ballots = vec![
        vec![(chad(), 1)],
        vec![(alice(), 1), (bob(), 2)],
        vec![(alice(), 1), (bob(), 2)],
        vec![(bob(), 1), (alice(), 2)],
        vec![(bob(), 1), (alice(), 2)],
        vec![(bob(), 1), (alice(), 2)],
    ];
    assert_eq!(instant_runoff_vote(ballots), bob());
}

#[test]
fn remove_candidate_keeps_the_others_in_order() {
    let mut ballots = vec![
        vec![(alice(), 1), (bob(), 2), (chad(), 3)],
        vec![(bob(), 5)],
        vec![],
        vec![(chad(), 1), (alice(), 1)],
    ];
    remove_candidate(&mut ballots, bob());
    assert_eq!(
        ballots,
        vec![
            vec![(alice(), 1), (chad(), 3)],
            vec![],
            vec![],
            vec![(chad(), 1), (alice(), 1)],
        ]
    );
}

#[test]
fn runoff_gives_the_same_winner_twice() {
    let ballots = vec![
        vec![(alice(), 1), (bob(), 2), (chad(), 3)],
        vec![(chad(), 1), (bob(), 2), (alice(), 3)],
        vec![(bob(), 1), (chad(), 2), (alice(), 3)],
    ];
    let first = instant_runoff_vote(ballots.clone());
    let second = instant_runoff_vote(ballots.clone());
    assert_eq!(first, second);
    // Each has one first choice: Chad is struck, his voter turns to Bob,
    // and Alice is struck next.
    assert_eq!(first, bob());
}

#[test]
fn first_choice_of_most_ballots_wins() {
    // Alice is the first choice of three ballots, the others of two
    // together.
    let ballots = vec![
        vec![(alice(), 1)],
        vec![(chad(), 1), (bob(), 2)],
        vec![(alice(), 1), (chad(), 2)],
        vec![(bob(), 1), (chad(), 2), (alice(), 3)],
        vec![(alice(), 0), (bob(), 0)],
    ];
    assert_eq!(first_choice_tally(&ballots), vec![3, 1, 1]);
    assert_eq!(instant_runoff_vote(ballots), alice());
}

#[test]
fn most_first_choices_at_the_start_do_not_decide() {
    // Alice leads at first, short of more than the others together. Chad
    // is struck, and his voters turn to Bob.
    let ballots = vec![
        vec![(alice(), 1), (bob(), 2)],
        vec![(alice(), 1), (bob(), 2)],
        vec![(alice(), 1), (bob(), 2)],
        vec![(bob(), 1), (alice(), 2)],
        vec![(bob(), 1), (alice(), 2)],
        vec![(chad(), 1), (bob(), 2)],
        vec![(chad(), 1), (bob(), 2)],
    ];
    assert_eq!(first_choice_tally(&ballots), vec![3, 2, 2]);
    assert_eq!(instant_runoff_vote(ballots), bob());
}
