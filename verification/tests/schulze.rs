use ranked_voting::schulze_method::{
    floyd_warshall_widest_paths, preferred_above_count, rank_by_score, schulze_method,
    schulze_method_single, valid_ballot,
};
use ranked_voting::{Candidate, PairwisePreferences};

type Ballot = Vec<(Candidate, i32)>;

fn alice() -> Candidate {
    Candidate::from(0)
}

fn bob() -> Candidate {
    Candidate::from(1)
}

fn chad() -> Candidate {
    Candidate::from(2)
}

fn dave() -> Candidate {
    Candidate::from(3)
}

fn elsa() -> Candidate {
    Candidate::from(4)
}

fn repeated(ballot: Ballot, times: usize) -> Vec<Ballot> {
    vec![ballot; times]
}

/// The example of 45 voters and five candidates from the literature on the
/// Schulze method.
fn wiki_ballots() -> Vec<Ballot> {
    let ballots = vec![
        repeated(vec![(alice(), 1), (chad(), 2), (bob(), 3), (elsa(), 4), (dave(), 5)], 5),
        repeated(vec![(alice(), 1), (dave(), 2), (elsa(), 3), (chad(), 4), (bob(), 5)], 5),
        repeated(vec![(bob(), 1), (elsa(), 2), (dave(), 3), (alice(), 4), (chad(), 5)], 8),
        repeated(vec![(chad(), 1), (alice(), 2), (bob(), 3), (elsa(), 4), (dave(), 5)], 3),
        repeated(vec![(chad(), 1), (alice(), 2), (elsa(), 3), (bob(), 4), (dave(), 5)], 7),
        repeated(vec![(chad(), 1), (bob(), 2), (alice(), 3), (dave(), 4), (elsa(), 5)], 2),
        repeated(vec![(dave(), 1), (chad(), 2), (elsa(), 3), (bob(), 4), (alice(), 5)], 7),
        repeated(vec![(elsa(), 1), (bob(), 2), (alice(), 3), (dave(), 4), (chad(), 5)], 8),
    ];

    ballots.concat()
}

#[test]
fn valid_ballot_test() {
    let ballot = vec![(alice(), 1), (bob(), 2), (chad(), 3)];
    assert!(valid_ballot(&ballot));
}

#[test]
fn main_invalid_ballot() {
    let ballot = vec![(alice(), 1), (alice(), 2)];
    assert!(!valid_ballot(&ballot));
}

#[test]
fn simple_floyd_warshal() {
    let edge_weights = vec![vec![0, 5, 1], vec![1, 0, 5], vec![0, 0, 0]];
    let widest_paths = floyd_warshall_widest_paths(&edge_weights);
    assert_eq!(
        widest_paths,
        vec![
            vec![i32::MAX, 5, 5],
            vec![1, i32::MAX, 5],
            vec![0, 0, i32::MAX],
        ]
    );
}

#[test]
fn wiki_schults_method() {
    let ballots = wiki_ballots();
    let winner = schulze_method_single(ballots);
    assert_eq!(winner, elsa());
}

#[test]
fn wiki_floyd_warshall() {
    let ballots = wiki_ballots();
    let count = PairwisePreferences::from_ballots(&ballots);
    let widest_paths = floyd_warshall_widest_paths(count.counts());
    assert_eq!(
        widest_paths,
        vec![
            vec![i32::MAX, 28, 28, 30, 24],
            vec![25, i32::MAX, 28, 33, 24],
            vec![25, 29, i32::MAX, 29, 24],
            vec![25, 28, 28, i32::MAX, 24],
            vec![25, 28, 28, 31, i32::MAX],
        ]
    );
}

#[test]
fn simple_floyd_warshall() {
    let edge_weights = vec![vec![0, 5, 0], vec![0, 0, 5], vec![0, 0, 0]];
    let widest_paths = floyd_warshall_widest_paths(&edge_weights);
    assert_eq!(
        widest_paths,
        vec![
            vec![i32::MAX, 5, 5],
            vec![0, i32::MAX, 5],
            vec![0, 0, i32::MAX],
        ]
    );
}

#[test]
fn simple_floyd_warshall_reversed() {
    let edge_weights = vec![vec![0, 0, 0], vec![5, 0, 0], vec![1, 5, 0]];
    let widest_paths = floyd_warshall_widest_paths(&edge_weights);
    assert_eq!(
        widest_paths,
        vec![
            vec![i32::MAX, 0, 0],
            vec![5, i32::MAX, 0],
            vec![5, 5, i32::MAX],
        ]
    );
}

#[test]
fn floyd_warshall_chain() {
    let edge_weights = vec![vec![0, 5, 1], vec![1, 0, 5], vec![3, 1, 0]];
    let widest_paths = floyd_warshall_widest_paths(&edge_weights);
    assert_eq!(
        widest_paths,
        vec![
            vec![i32::MAX, 5, 5],
            vec![3, i32::MAX, 5],
            vec![3, 3, i32::MAX],
        ]
    );
}

#[test]
fn complex_floyd_warshall() {
    let edge_weights = vec![
        vec![0, 5, 1, 0],
        vec![1, 0, 5, 0],
        vec![0, 1, 0, 5],
        vec![3, 0, 1, 0],
    ];
    let widest_paths = floyd_warshall_widest_paths(&edge_weights);
    assert_eq!(
        widest_paths,
        vec![
            vec![i32::MAX, 5, 5, 5],
            vec![3, i32::MAX, 5, 5],
            vec![3, 3, i32::MAX, 5],
            vec![3, 3, 3, i32::MAX],
        ]
    );
}

#[test]
fn wiki_pairwise_matrix() {
    let ballots = wiki_ballots();
    let count = PairwisePreferences::from_ballots(&ballots);
    assert_eq!(
        *count.counts(),
        vec![
            vec![0, 20, 26, 30, 22],
            vec![25, 0, 16, 33, 18],
            vec![19, 29, 0, 17, 24],
            vec![15, 12, 28, 0, 14],
            vec![23, 27, 21, 31, 0],
        ]
    );
}

#[test]
fn wiki_full_ranking() {
    let ranking = schulze_method(wiki_ballots());
    assert_eq!(ranking, vec![elsa(), alice(), chad(), bob(), dave()]);
}

#[test]
fn wiki_scores() {
    let ballots = wiki_ballots();
    let count = PairwisePreferences::from_ballots(&ballots);
    let widest_paths = floyd_warshall_widest_paths(count.counts());
    assert_eq!(preferred_above_count(&widest_paths, alice()), 3);
    assert_eq!(preferred_above_count(&widest_paths, bob()), 1);
    assert_eq!(preferred_above_count(&widest_paths, chad()), 2);
    assert_eq!(preferred_above_count(&widest_paths, dave()), 0);
    assert_eq!(preferred_above_count(&widest_paths, elsa()), 4);
}

#[test]
fn candidate_whom_every_voter_prefers_is_ranked_ahead() {
    // Every voter ranks Bob ahead of Alice; on Chad and Dave they differ.
    let ballots = vec![
        vec![(bob(), 1), (alice(), 2), (chad(), 3), (dave(), 4)],
        vec![(chad(), 1), (bob(), 2), (dave(), 3), (alice(), 4)],
        vec![(dave(), 1), (chad(), 2), (bob(), 3), (alice(), 9)],
        vec![(bob(), 0), (alice(), 1)],
    ];
    let ranking = schulze_method(ballots);
    let place_of = |candidate: Candidate| ranking.iter().position(|c| *c == candidate).unwrap();
    assert!(place_of(bob()) < place_of(alice()));
    assert_eq!(ranking.len(), 4);
}

#[test]
fn ballots_that_leave_candidates_out_can_turn_a_pair_around() {
    // The one voter who ranks both Alice and Bob prefers Alice. Bob is
    // ahead all the same, by the voters who rank Bob over Chad and Chad
    // over Alice.
    let mut ballots = vec![vec![(alice(), 1), (bob(), 2)]];
    ballots.extend(repeated(vec![(bob(), 1), (chad(), 2)], 100));
    ballots.extend(repeated(vec![(chad(), 1), (alice(), 2)], 100));
    let count = PairwisePreferences::from_ballots(&ballots);
    assert_eq!(
        *count.counts(),
        vec![vec![0, 1, 0], vec![0, 0, 100], vec![100, 0, 0]]
    );
    let ranking = schulze_method(ballots);
    assert_eq!(ranking, vec![bob(), chad(), alice()]);
}

#[test]
fn equal_scores_put_the_higher_handle_first() {
    // One voter, one candidate: the three candidates with lower handles
    // are in the election too, and nobody is preferred to anybody.
    let ranking = schulze_method(vec![vec![(dave(), 1)]]);
    assert_eq!(ranking, vec![dave(), chad(), bob(), alice()]);
    assert_eq!(schulze_method_single(vec![vec![(dave(), 1)]]), dave());

    let tied = vec![
        vec![(alice(), 1), (bob(), 2)],
        vec![(bob(), 1), (alice(), 2)],
    ];
    assert_eq!(schulze_method(tied), vec![bob(), alice()]);
}

#[test]
fn winner_beats_or_ties_every_other_candidate() {
    let ballots = wiki_ballots();
    let count = PairwisePreferences::from_ballots(&ballots);
    let widest_paths = floyd_warshall_widest_paths(count.counts());
    let winner = schulze_method_single(ballots);
    assert_eq!(preferred_above_count(&widest_paths, winner), 4);

    // A cycle of three: each beats one and loses to one, and all tie
    // through the cycle.
    let cycle = vec![
        vec![(alice(), 1), (bob(), 2), (chad(), 3)],
        vec![(bob(), 1), (chad(), 2), (alice(), 3)],
        vec![(chad(), 1), (alice(), 2), (bob(), 3)],
    ];
    let count = PairwisePreferences::from_ballots(&cycle);
    let widest_paths = floyd_warshall_widest_paths(count.counts());
    assert_eq!(
        widest_paths,
        vec![
            vec![i32::MAX, 2, 2],
            vec![2, i32::MAX, 2],
            vec![2, 2, i32::MAX],
        ]
    );
    let winner = schulze_method_single(cycle);
    assert_eq!(winner, chad());
    assert_eq!(preferred_above_count(&widest_paths, winner), 2);
}

#[test]
fn rank_by_score_orders_by_descending_score() {
    let strength = vec![
        vec![i32::MAX, 1, 5, 0],
        vec![2, i32::MAX, 5, 0],
        vec![4, 5, i32::MAX, 0],
        vec![9, 9, 9, i32::MAX],
    ];
    assert_eq!(preferred_above_count(&strength, alice()), 1);
    assert_eq!(preferred_above_count(&strength, bob()), 2);
    assert_eq!(preferred_above_count(&strength, chad()), 1);
    assert_eq!(preferred_above_count(&strength, dave()), 3);
    let candidates = vec![alice(), bob(), chad(), dave()];
    assert_eq!(
        rank_by_score(&strength, candidates),
        vec![dave(), bob(), chad(), alice()]
    );
    assert_eq!(rank_by_score(&[], vec![]), Vec::<Candidate>::new());
}

#[test]
fn schulze_gives_the_same_ranking_twice() {
    let first = schulze_method(wiki_ballots());
    let second = schulze_method(wiki_ballots());
    assert_eq!(first, second);
    assert_eq!(
        schulze_method_single(wiki_ballots()),
        schulze_method_single(wiki_ballots())
    );
    assert_eq!(schulze_method_single(wiki_ballots()), first[0]);
}

#[test]
fn one_ballot_ranks_as_the_voter_did() {
    let ballots = vec![vec![(chad(), 1), (alice(), 2), (bob(), 3)]];
    assert_eq!(schulze_method(ballots), vec![chad(), alice(), bob()]);
}
