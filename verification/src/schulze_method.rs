//! The Schulze method: rank the candidates by the widest paths through the
//! pairwise preferences of the voters.

use vstd::prelude::*;
use crate::{Ballot, BallotSlice, Candidate};
use crate::ballot::{
    all_unique_candidates, handles_fit, has_unique_candidates, num_candidates, unique_candidates,
};
use crate::counting::{count_below, lemma_count_bounded};
use crate::pairwise::{counts_fit, PairwisePreferences};
use crate::ranking::{
    comes_before, holds_against, is_ranking_by_score, is_schulze_ranking, is_schulze_winner,
    lemma_first_ranked_is_unbeaten, lemma_first_ranked_is_winner, preferred_above, schulze_score,
    strongest_paths,
};
use crate::widest_path::{
    is_square, is_widest_matrix, is_widest_width, lemma_via_is_widest, lemma_via_pivot_fixed,
    lemma_widest_matrix_unique, lemma_widest_width_diagonal, widest_matrix, widest_via,
};

verus! {

/// A copy of `rows`.
fn copy_rows(rows: &[Vec<i32>]) -> (copy: Vec<Vec<i32>>)
    ensures
        copy.deep_view() == rows.deep_view(),
{
    let mut copy: Vec<Vec<i32>> = Vec::new();
    for i in 0..rows.len()
        invariant
            copy.len() == i,
            forall|a: int| 0 <= a < i ==> (#[trigger] copy@[a])@ == rows@[a]@,
    {
        let mut row: Vec<i32> = Vec::new();
        let width = rows[i].len();
        for j in 0..width
            invariant
                i < rows.len(),
                width == rows@[i as int]@.len(),
                row.len() == j,
                forall|b: int| 0 <= b < j ==> #[trigger] row@[b] == rows@[i as int]@[b],
        {
            row.push(rows[i][j]);
        }
        assert(row@ =~= rows@[i as int]@);
        copy.push(row);
    }
    assert(copy.deep_view() =~~= rows.deep_view());
    copy
}

/// The widest path between every two nodes of a graph.
///
/// `weights[x][y]` is the weight of the edge from `x` to `y`. The result
/// holds at `[x][y]` the width of the widest path from `x` to `y`, and on
/// its diagonal the largest `i32`: a node reaches itself without an edge.
pub fn floyd_warshall_widest_paths(weights: &[Vec<i32>]) -> (widest: Vec<Vec<i32>>)
    requires
        is_square(weights.deep_view()),
    ensures
        is_widest_matrix(weights.deep_view(), widest.deep_view()),
        widest.deep_view() == widest_matrix(weights.deep_view()),
        forall|i: int| 0 <= i < widest.len() ==> (#[trigger] widest.deep_view()[i])[i] == i32::MAX,
        forall|i: int, j: int|
            0 <= i < widest.len() && 0 <= j < widest.len() ==> (#[trigger] widest.deep_view()[i][j])
                == widest_via(weights.deep_view(), weights.len() as nat, i, j),
{
    let dim = weights.len();
    let ghost w = weights.deep_view();
    if dim == 0 {
        let empty: Vec<Vec<i32>> = Vec::new();
        proof {
            lemma_widest_matrix_unique(w, empty.deep_view());
        }
        return empty;
    }
    let mut current_widest = copy_rows(weights);
    assert(current_widest.len() == dim) by {
        assert(current_widest.deep_view().len() == w.len());
    }
    assert forall|a: int| 0 <= a < dim implies (#[trigger] current_widest@[a])@.len() == dim by {
        assert(current_widest.deep_view()[a].len() == w[a].len());
    }
    assert forall|a: int, b: int| 0 <= a < dim && 0 <= b < dim implies (
    #[trigger] current_widest@[a]@[b]) == w[a][b] by {
        assert(current_widest.deep_view()[a][b] == w[a][b]);
    }
    for i in 0..dim
        invariant
            current_widest.len() == dim,
            forall|a: int| 0 <= a < dim ==> (#[trigger] current_widest@[a])@.len() == dim,
            forall|a: int, b: int|
                0 <= a < dim && 0 <= b < dim ==> (#[trigger] current_widest@[a]@[b]) == (if a == b
                    && a < i {
                    i32::MAX
                } else {
                    w[a][b]
                }),
    {
        // A node reaches itself by the path without an edge.
        current_widest[i][i] = i32::MAX;
    }
    assert forall|a: int, b: int| 0 <= a < dim && 0 <= b < dim implies (
    #[trigger] current_widest@[a]@[b]) == widest_via(w, 0, a, b) by {}

    // Allow one more node `k` inside the paths at a time.
    for k in 0..dim
        invariant
            dim == w.len(),
            current_widest.len() == dim,
            forall|a: int| 0 <= a < dim ==> (#[trigger] current_widest@[a])@.len() == dim,
            forall|a: int, b: int|
                0 <= a < dim && 0 <= b < dim ==> (#[trigger] current_widest@[a]@[b]) == widest_via(
                    w,
                    k as nat,
                    a,
                    b,
                ),
    {
        for i in 0..dim
            invariant
                k < dim,
                current_widest.len() == dim,
                forall|a: int| 0 <= a < dim ==> (#[trigger] current_widest@[a])@.len() == dim,
                forall|a: int, b: int|
                    0 <= a < dim && 0 <= b < dim ==> (#[trigger] current_widest@[a]@[b])
                        == widest_via(w, if a < i { (k + 1) as nat } else { k as nat }, a, b),
        {
            for j in 0..dim
                invariant
                    k < dim,
                    i < dim,
                    current_widest.len() == dim,
                    forall|a: int| 0 <= a < dim ==> (#[trigger] current_widest@[a])@.len() == dim,
                    forall|a: int, b: int|
                        0 <= a < dim && 0 <= b < dim ==> (#[trigger] current_widest@[a]@[b])
                            == widest_via(
                            w,
                            if a < i || (a == i && b < j) { (k + 1) as nat } else { k as nat },
                            a,
                            b,
                        ),
            {
                proof {
                    lemma_via_pivot_fixed(w, k as nat, i as int);
                    lemma_via_pivot_fixed(w, k as nat, j as int);
                }
                let to_k = current_widest[i][k];
                let from_k = current_widest[k][j];
                let width_using_k = if to_k <= from_k { to_k } else { from_k };
                assert(to_k == widest_via(w, k as nat, i as int, k as int));
                assert(from_k == widest_via(w, k as nat, k as int, j as int));
                if current_widest[i][j] < width_using_k {
                    current_widest[i][j] = width_using_k;
                }
                assert(current_widest@[i as int]@[j as int] == widest_via(
                    w,
                    (k + 1) as nat,
                    i as int,
                    j as int,
                ));
            }
        }
    }

    proof {
        let r = current_widest.deep_view();
        assert forall|a: int| 0 <= a < r.len() implies (#[trigger] r[a]).len() == r.len() by {
            assert(current_widest@[a]@.len() == dim);
        }
        assert forall|a: int, b: int| 0 <= a < dim && 0 <= b < dim implies is_widest_width(
            w,
            a,
            b,
            #[trigger] r[a][b] as int,
        ) by {
            assert(r[a][b] == current_widest@[a]@[b]);
            lemma_via_is_widest(w, a, b);
        }
        assert forall|a: int| 0 <= a < dim implies (#[trigger] r[a])[a] == i32::MAX by {
            assert(r[a][a] == current_widest@[a]@[a]);
            lemma_via_is_widest(w, a, a);
            lemma_widest_width_diagonal(w, a);
        }
        lemma_widest_matrix_unique(w, r);
        assert forall|a: int, b: int| 0 <= a < dim && 0 <= b < dim implies (#[trigger] r[a][b])
            == widest_via(w, dim as nat, a, b) by {
            assert(r[a][b] == current_widest@[a]@[b]);
        }
    }
    current_widest
}

/// The candidate with handle `c` is in `ranking`.
spec fn lists(ranking: Seq<Candidate>, c: int) -> bool {
    exists|i: int| 0 <= i < ranking.len() && (#[trigger] ranking[i])@ == c
}

/// The candidates by descending score: by the number of others whom each
/// beats or ties, where `strength[x][y]` is how strong `x` is against `y`.
/// Of two candidates with the same score, the one with the higher handle
/// comes first.
///
/// `candidates` are the candidates that `strength` has a row for, by
/// ascending handle.
pub fn rank_by_score(strength: &[Vec<i32>], candidates: Vec<Candidate>) -> (ranking: Vec<Candidate>)
    requires
        is_square(strength.deep_view()),
        candidates.len() == strength.len(),
        forall|c: int| 0 <= c < candidates.len() ==> (#[trigger] candidates@[c])@ == c,
    ensures
        is_ranking_by_score(strength.deep_view(), ranking.deep_view()),
{
    let ghost matrix = strength.deep_view();
    let n = candidates.len();
    let mut ranking: Vec<Candidate> = Vec::new();
    let mut scores: Vec<usize> = Vec::new();
    for next in 0..n
        invariant
            matrix == strength.deep_view(),
            is_square(matrix),
            n == candidates.len(),
            n == matrix.len(),
            forall|c: int| 0 <= c < n ==> (#[trigger] candidates@[c])@ == c,
            ranking.len() == next,
            scores.len() == next,
            forall|i: int| 0 <= i < next ==> (#[trigger] ranking@[i])@ < next,
            forall|i: int|
                0 <= i < next ==> #[trigger] scores@[i] == preferred_above(
                    matrix,
                    ranking@[i]@ as int,
                ),
            forall|c: int| 0 <= c < next ==> #[trigger] lists(ranking@, c),
            forall|i: int, j: int|
                0 <= i < j < next ==> comes_before(
                    matrix,
                    (#[trigger] ranking@[i])@ as int,
                    (#[trigger] ranking@[j])@ as int,
                ),
    {
        let candidate = candidates[next];
        let score = preferred_above_count(strength, candidate);
        // The candidates so far have lower handles: of those with the same
        // score, this one comes first.
        let mut at: usize = 0;
        while at < ranking.len() && scores[at] > score
            invariant
                at <= ranking.len(),
                ranking.len() == scores.len(),
                forall|i: int| 0 <= i < at ==> #[trigger] scores@[i] > score,
            decreases ranking.len() - at,
        {
            at += 1;
        }
        let ghost ranked = ranking@;
        let ghost ranked_scores = scores@;
        ranking.insert(at, candidate);
        scores.insert(at, score);
        proof {
            assert forall|i: int| 0 <= i < next + 1 implies #[trigger] scores@[i]
                == preferred_above(matrix, ranking@[i]@ as int) && ranking@[i]@ < next + 1 by {
                if i < at {
                    assert(ranking@[i] == ranked[i]);
                    assert(scores@[i] == ranked_scores[i]);
                } else if i > at {
                    assert(ranking@[i] == ranked[i - 1]);
                    assert(scores@[i] == ranked_scores[i - 1]);
                }
            }
            assert forall|c: int| 0 <= c < next + 1 implies #[trigger] lists(ranking@, c) by {
                if c == next {
                    assert(ranking@[at as int]@ == c);
                } else {
                    assert(lists(ranked, c));
                    let i = choose|i: int| 0 <= i < ranked.len() && (#[trigger] ranked[i])@ == c;
                    if i < at {
                        assert(ranking@[i]@ == c);
                    } else {
                        assert(ranking@[i + 1]@ == c);
                    }
                }
            }
            assert forall|i: int, j: int| 0 <= i < j < next + 1 implies comes_before(
                matrix,
                (#[trigger] ranking@[i])@ as int,
                (#[trigger] ranking@[j])@ as int,
            ) by {
                let before_i = if i < at { i } else { i - 1 };
                let before_j = if j < at { j } else { j - 1 };
                if i != at && j != at {
                    assert(ranking@[i] == ranked[before_i]);
                    assert(ranking@[j] == ranked[before_j]);
                    assert(comes_before(matrix, ranked[before_i]@ as int, ranked[before_j]@ as int));
                } else if j == at {
                    assert(ranking@[i] == ranked[i]);
                    assert(ranked_scores[i] > score);
                } else {
                    assert(ranking@[j] == ranked[j - 1]);
                    assert(scores@[j] == ranked_scores[j - 1]);
                    if at < j - 1 {
                        assert(comes_before(matrix, ranked[at as int]@ as int, ranked[j - 1]@ as int));
                    }
                    assert(ranked_scores[at as int] <= score);
                }
            }
        }
    }
    proof {
        let listed = ranking.deep_view();
        assert forall|i: int| 0 <= i < listed.len() implies #[trigger] listed[i] < matrix.len() by {
            assert(listed[i] == ranking@[i]@);
        }
        assert forall|c: nat| c < matrix.len() implies listed.contains(c) by {
            assert(lists(ranking@, c as int));
            let i = choose|i: int| 0 <= i < ranking@.len() && (#[trigger] ranking@[i])@ == c;
            assert(listed[i] == c);
        }
        assert forall|i: int, j: int| 0 <= i < j < listed.len() implies comes_before(
            matrix,
            #[trigger] listed[i] as int,
            #[trigger] listed[j] as int,
        ) by {
            assert(listed[i] == ranking@[i]@ && listed[j] == ranking@[j]@);
        }
    }
    ranking
}

/// Schulze method election. Ballots give a list of candidates and a number
/// ranking. Lower numbers are more preferred candidates. Each candidate can
/// only be listed once on a ballot. Multiple candidates may have the same
/// ranking.
///
/// The candidates are returned in order of preference, with the first
/// element being the most preferred candidate, and the last being the least
/// preferred: by descending number of other candidates beaten or tied. Of
/// two candidates with the same number, the one with the higher handle comes
/// first.
pub fn schulze_method(votes: Vec<Ballot>) -> (ranking: Vec<Candidate>)
    requires
        votes.len() > 0,
        all_unique_candidates(votes.deep_view()),
        counts_fit(votes.deep_view()),
        handles_fit(votes.deep_view()),
    ensures
        is_schulze_ranking(votes.deep_view(), ranking.deep_view()),
{
    let ghost ballots = votes.deep_view();
    let all_votes = votes.as_slice();
    assert(all_votes.deep_view() =~= ballots);
    let count = PairwisePreferences::from_ballots(all_votes);
    let weights = count.counts().as_slice();
    assert(weights.deep_view() =~= count@);
    let widest_paths = floyd_warshall_widest_paths(weights);
    let strength = widest_paths.as_slice();
    assert(strength.deep_view() =~= strongest_paths(ballots));

    let candidates_to_sort = count.candidates();
    rank_by_score(strength, candidates_to_sort)
}

/// `schulze_method`, but only returns the first candidate: the winner, who
/// beats or ties every other candidate.
pub fn schulze_method_single(votes: Vec<Ballot>) -> (winner: Candidate)
    requires
        votes.len() > 0,
        all_unique_candidates(votes.deep_view()),
        counts_fit(votes.deep_view()),
        handles_fit(votes.deep_view()),
    ensures
        is_schulze_winner(votes.deep_view(), winner@ as int),
        schulze_score(votes.deep_view(), winner@ as int) == num_candidates(votes.deep_view()) - 1,
{
    let ghost ballots = votes.deep_view();
    let ranking = schulze_method(votes);
    let winner = ranking[0];
    proof {
        let listed = ranking.deep_view();
        assert(listed[0] == winner@);
        lemma_first_ranked_is_winner(ballots, listed);
        lemma_first_ranked_is_unbeaten(ballots, listed);
    }
    winner
}

/// Checks if the ballot is valid: no candidate is on it twice.
pub fn valid_ballot(ballot: &BallotSlice) -> (valid: bool)
    ensures
        valid == has_unique_candidates(ballot.deep_view()),
{
    unique_candidates(ballot)
}

/// For the given candidate, count the number of challengers that the
/// candidate beats or ties.
pub fn preferred_above_count(preferences: &[Vec<i32>], candidate: Candidate) -> (count: usize)
    requires
        is_square(preferences.deep_view()),
        candidate@ < preferences.len(),
    ensures
        count == preferred_above(preferences.deep_view(), candidate@ as int),
{
    let ghost strength = preferences.deep_view();
    let ghost beaten = holds_against(strength, candidate@ as int);
    let id = candidate.id();
    let mut count: usize = 0;
    for other in 0..preferences.len()
        invariant
            strength == preferences.deep_view(),
            is_square(strength),
            id == candidate@,
            id < preferences.len(),
            beaten == holds_against(strength, candidate@ as int),
            count == count_below(other as nat, beaten),
    {
        proof {
            lemma_count_bounded(other as nat, beaten);
            assert(strength[id as int].len() == preferences.len());
            assert(strength[other as int].len() == preferences.len());
        }
        if id != other && preferences[id][other] >= preferences[other][id] {
            count += 1;
        }
    }
    count
}

} // verus!
