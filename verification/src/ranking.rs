//! What the Schulze ranking of an election is, and what holds of it.
//!
//! A candidate is as strong against another as the widest path from the one
//! to the other through the pairwise preferences. A candidate's score is the
//! number of others against whom the candidate is at least as strong as they
//! are in return. The ranking lists the candidates by descending score.

use vstd::prelude::*;
use crate::Rank;
use crate::ballot::{
    all_unique_candidates, has_unique_candidates, lemma_highest_handle_bounds, num_candidates,
};
use crate::counting::{
    count_below, lemma_count_all_but_one, lemma_count_bounded, lemma_count_full,
    lemma_count_strictly_monotone,
};
use crate::pairwise::{
    counts_fit, lemma_counts_fit, lemma_same_candidate_same_place, pairwise_matrix,
    preference_count, prefers, prefers_at,
};
use crate::widest_path::{
    is_path, is_path_between, is_widest_width, lemma_via_is_widest, lemma_widest_width_covers_edge,
    lemma_widest_matrix_entry, lemma_widest_width_triangle, path_width, widest_matrix,
    widest_width,
};

verus! {

/// Whether a candidate is another than `c` and one against whom `c` is at
/// least as strong as that candidate is against `c`.
pub open spec fn holds_against(strength: Seq<Seq<i32>>, c: int) -> spec_fn(int) -> bool {
    |d: int| d != c && strength[c][d] >= strength[d][c]
}

/// Against how many other candidates `c` is at least as strong as they are
/// against `c`, where `strength[x][y]` is how strong `x` is against `y`.
pub open spec fn preferred_above(strength: Seq<Seq<i32>>, c: int) -> nat {
    count_below(strength.len(), holds_against(strength, c))
}

/// In a ranking by `strength`, `a` comes before `b`: `a` has the higher
/// score, or the same score and the higher handle.
pub open spec fn comes_before(strength: Seq<Seq<i32>>, a: int, b: int) -> bool {
    preferred_above(strength, a) > preferred_above(strength, b) || (preferred_above(strength, a)
        == preferred_above(strength, b) && a > b)
}

/// `ranking` lists every candidate that `strength` has a row for, each
/// before those that follow.
pub open spec fn is_ranking_by_score(strength: Seq<Seq<i32>>, ranking: Seq<nat>) -> bool {
    &&& ranking.len() == strength.len()
    &&& forall|i: int| 0 <= i < ranking.len() ==> #[trigger] ranking[i] < strength.len()
    &&& forall|c: nat| c < strength.len() ==> ranking.contains(c)
    &&& forall|i: int, j: int|
        0 <= i < j < ranking.len() ==> comes_before(
            strength,
            #[trigger] ranking[i] as int,
            #[trigger] ranking[j] as int,
        )
}

/// How strong each candidate is against each other: the widest paths through
/// the pairwise preferences of `ballots`.
pub open spec fn strongest_paths(ballots: Seq<Seq<(nat, Rank)>>) -> Seq<Seq<i32>> {
    widest_matrix(pairwise_matrix(ballots))
}

/// The number of other candidates whom `c` beats or ties in the election.
pub open spec fn schulze_score(ballots: Seq<Seq<(nat, Rank)>>, c: int) -> nat {
    preferred_above(strongest_paths(ballots), c)
}

/// Candidate `a` is ahead of candidate `b` in the election: `a` has the
/// higher score, or the same score and the higher handle.
pub open spec fn ranks_ahead(ballots: Seq<Seq<(nat, Rank)>>, a: int, b: int) -> bool {
    comes_before(strongest_paths(ballots), a, b)
}

/// `ranking` lists every candidate of the election, each ahead of those
/// that follow.
pub open spec fn is_schulze_ranking(ballots: Seq<Seq<(nat, Rank)>>, ranking: Seq<nat>) -> bool {
    is_ranking_by_score(strongest_paths(ballots), ranking)
}

/// Candidate `c` is ahead of every other candidate of the election.
pub open spec fn is_schulze_winner(ballots: Seq<Seq<(nat, Rank)>>, c: int) -> bool {
    &&& 0 <= c < num_candidates(ballots)
    &&& forall|d: int|
        0 <= d < num_candidates(ballots) && d != c ==> #[trigger] ranks_ahead(ballots, c, d)
}

/// Candidate `x` is stronger against `y` than `y` is against `x`.
pub open spec fn stronger(strength: Seq<Seq<i32>>, x: int, y: int) -> bool {
    strength[x][y] > strength[y][x]
}

/// In a matrix of widest widths, who is stronger than one who is stronger
/// than a third is stronger than the third.
pub proof fn lemma_stronger_is_transitive(w: Seq<Seq<i32>>, x: int, y: int, z: int)
    requires
        0 <= x < w.len(),
        0 <= y < w.len(),
        0 <= z < w.len(),
        stronger(widest_matrix(w), x, y),
        stronger(widest_matrix(w), y, z),
    ensures
        stronger(widest_matrix(w), x, z),
{
    lemma_widest_matrix_entry(w, x, y);
    lemma_widest_matrix_entry(w, y, x);
    lemma_widest_matrix_entry(w, y, z);
    lemma_widest_matrix_entry(w, z, y);
    lemma_widest_matrix_entry(w, x, z);
    lemma_widest_matrix_entry(w, z, x);
    lemma_widest_width_triangle(w, x, z, y);
    lemma_widest_width_triangle(w, y, x, z);
    lemma_widest_width_triangle(w, z, y, x);
}

/// Among the first `upto` nodes of a matrix of widest widths there is one
/// than whom none of them is stronger.
pub proof fn lemma_unbeaten_exists(w: Seq<Seq<i32>>, upto: int) -> (m: int)
    requires
        0 < upto <= w.len(),
    ensures
        0 <= m < upto,
        forall|d: int| 0 <= d < upto ==> !stronger(widest_matrix(w), d, m),
    decreases upto,
{
    let strength = widest_matrix(w);
    if upto == 1 {
        0
    } else {
        let last = upto - 1;
        let before = lemma_unbeaten_exists(w, last);
        if stronger(strength, last, before) {
            assert forall|d: int| 0 <= d < upto implies !stronger(strength, d, last) by {
                if d < last && stronger(strength, d, last) {
                    lemma_stronger_is_transitive(w, d, last, before);
                }
            }
            last
        } else {
            before
        }
    }
}

/// In a matrix of widest widths, a node that is stronger than another
/// holds against more nodes than the other does.
pub proof fn lemma_stronger_scores_higher(w: Seq<Seq<i32>>, a: int, b: int)
    requires
        0 <= a < w.len(),
        0 <= b < w.len(),
        stronger(widest_matrix(w), a, b),
    ensures
        preferred_above(widest_matrix(w), a) > preferred_above(widest_matrix(w), b),
{
    let strength = widest_matrix(w);
    let of_a = holds_against(strength, a);
    let of_b = holds_against(strength, b);
    assert forall|d: int| 0 <= d < strength.len() && #[trigger] of_b(d) implies of_a(d) by {
        if stronger(strength, d, a) {
            lemma_stronger_is_transitive(w, d, a, b);
        }
    }
    assert(of_a(b) && !of_b(b));
    lemma_count_strictly_monotone(strength.len(), of_b, of_a, b);
}

/// A node holds against all others exactly when none is stronger.
pub proof fn lemma_unbeaten_holds_against_all(strength: Seq<Seq<i32>>, c: int)
    requires
        0 <= c < strength.len(),
    ensures
        preferred_above(strength, c) <= strength.len() - 1,
        preferred_above(strength, c) == strength.len() - 1 <==> (forall|d: int|
            0 <= d < strength.len() ==> !stronger(strength, d, c)),
{
    let holds = holds_against(strength, c);
    lemma_count_all_but_one(strength.len(), holds, c);
    if preferred_above(strength, c) == strength.len() - 1 {
        assert forall|d: int| 0 <= d < strength.len() implies !stronger(strength, d, c) by {
            if d != c {
                assert(holds(d));
            }
        }
    }
    if forall|d: int| 0 <= d < strength.len() ==> !stronger(strength, d, c) {
        assert forall|d: int| 0 <= d < strength.len() && d != c implies #[trigger] holds(d) by {
            assert(!stronger(strength, d, c));
        }
    }
}

/// The first of a Schulze ranking beats or ties every other candidate: no
/// candidate is stronger against the first than the first is in return.
pub proof fn lemma_first_ranked_is_unbeaten(ballots: Seq<Seq<(nat, Rank)>>, ranking: Seq<nat>)
    requires
        is_schulze_ranking(ballots, ranking),
    ensures
        schulze_score(ballots, ranking[0] as int) == num_candidates(ballots) - 1,
        forall|d: int|
            0 <= d < num_candidates(ballots) ==> !stronger(
                strongest_paths(ballots),
                d,
                ranking[0] as int,
            ),
{
    let n = num_candidates(ballots) as int;
    let w = pairwise_matrix(ballots);
    let strength = strongest_paths(ballots);
    let first = ranking[0] as int;
    let unbeaten = lemma_unbeaten_exists(w, n);
    lemma_unbeaten_holds_against_all(strength, unbeaten);
    lemma_unbeaten_holds_against_all(strength, first);
    assert(ranking.contains(unbeaten as nat));
    let j = choose|j: int| 0 <= j < ranking.len() && ranking[j] == unbeaten as nat;
    if j > 0 {
        assert(ranks_ahead(ballots, ranking[0] as int, ranking[j] as int));
    }
}

/// A voter who prefers `x` to `y` and `y` to `z` prefers `x` to `z`.
pub proof fn lemma_prefers_is_transitive(ballot: Seq<(nat, Rank)>, x: int, y: int, z: int)
    requires
        has_unique_candidates(ballot),
        prefers(ballot, x, y),
        prefers(ballot, y, z),
    ensures
        prefers(ballot, x, z),
{
    let (i, j) = choose|i: int, j: int|
        0 <= i < ballot.len() && 0 <= j < ballot.len() && (#[trigger] ballot[i]).0 == x && (
        #[trigger] ballot[j]).0 == y && ballot[i].1 < ballot[j].1;
    let (k, l) = choose|k: int, l: int|
        0 <= k < ballot.len() && 0 <= l < ballot.len() && (#[trigger] ballot[k]).0 == y && (
        #[trigger] ballot[l]).0 == z && ballot[k].1 < ballot[l].1;
    lemma_same_candidate_same_place(ballot, j, k);
    assert(ballot[i].0 == x && ballot[l].0 == z && ballot[i].1 < ballot[l].1);
}

/// No voter prefers `x` to `y` and `y` to `x`.
pub proof fn lemma_prefers_is_asymmetric(ballot: Seq<(nat, Rank)>, x: int, y: int)
    requires
        has_unique_candidates(ballot),
        prefers(ballot, x, y),
    ensures
        !prefers(ballot, y, x),
{
    if prefers(ballot, y, x) {
        lemma_prefers_is_transitive(ballot, x, y, x);
        let (i, j) = choose|i: int, j: int|
            0 <= i < ballot.len() && 0 <= j < ballot.len() && (#[trigger] ballot[i]).0 == x && (
            #[trigger] ballot[j]).0 == x && ballot[i].1 < ballot[j].1;
        lemma_same_candidate_same_place(ballot, i, j);
    }
}

/// Every voter prefers `x` to `y`.
pub open spec fn all_prefer(ballots: Seq<Seq<(nat, Rank)>>, x: int, y: int) -> bool {
    forall|k: int| 0 <= k < ballots.len() ==> prefers(#[trigger] ballots[k], x, y)
}

/// As many voters as there are prefer `x` to `y` exactly when all do.
pub proof fn lemma_all_prefer_is_full_count(ballots: Seq<Seq<(nat, Rank)>>, x: int, y: int)
    ensures
        preference_count(ballots, x, y) <= ballots.len(),
        preference_count(ballots, x, y) == ballots.len() <==> all_prefer(ballots, x, y),
{
    let at = prefers_at(ballots, x, y);
    lemma_count_bounded(ballots.len(), at);
    lemma_count_full(ballots.len(), at);
    if preference_count(ballots, x, y) == ballots.len() {
        assert forall|k: int| 0 <= k < ballots.len() implies prefers(#[trigger] ballots[k], x, y) by {
            assert(at(k));
        }
    }
    if all_prefer(ballots, x, y) {
        assert forall|k: int| 0 <= k < ballots.len() implies #[trigger] at(k) by {
            assert(prefers(ballots[k], x, y));
        }
    }
}

/// A path through the pairwise preferences that is as wide as there are
/// voters leads from a candidate to one whom every voter ranks below.
pub proof fn lemma_full_width_path_is_unanimous(ballots: Seq<Seq<(nat, Rank)>>, p: Seq<int>)
    requires
        all_unique_candidates(ballots),
        counts_fit(ballots),
        is_path(num_candidates(ballots), p),
        p.len() >= 2,
        path_width(pairwise_matrix(ballots), p) >= ballots.len(),
    ensures
        all_prefer(ballots, p.first(), p.last()),
    decreases p.len(),
{
    let w = pairwise_matrix(ballots);
    lemma_all_prefer_is_full_count(ballots, p[0], p[1]);
    lemma_counts_fit(ballots, p[0], p[1]);
    assert(w[p[0]][p[1]] == preference_count(ballots, p[0], p[1]));
    assert(all_prefer(ballots, p[0], p[1]));
    if p.len() > 2 {
        let rest = p.drop_first();
        assert(rest.first() == p[1] && rest.last() == p.last());
        lemma_full_width_path_is_unanimous(ballots, rest);
        assert forall|k: int| 0 <= k < ballots.len() implies prefers(
            #[trigger] ballots[k],
            p.first(),
            p.last(),
        ) by {
            assert(prefers(ballots[k], p[0], p[1]));
            assert(prefers(ballots[k], rest.first(), rest.last()));
            lemma_prefers_is_transitive(ballots[k], p[0], p[1], p.last());
        }
    }
}

/// Where every voter prefers `a` to `b`, `a` is stronger against `b` than
/// `b` against `a`, and has the higher score.
pub proof fn lemma_unanimous_preference_is_stronger(ballots: Seq<Seq<(nat, Rank)>>, a: int, b: int)
    requires
        all_unique_candidates(ballots),
        counts_fit(ballots),
        ballots.len() > 0,
        all_prefer(ballots, a, b),
    ensures
        0 <= a < num_candidates(ballots),
        0 <= b < num_candidates(ballots),
        stronger(strongest_paths(ballots), a, b),
        schulze_score(ballots, a) > schulze_score(ballots, b),
{
    let n = num_candidates(ballots);
    let w = pairwise_matrix(ballots);
    let voter = ballots[0];
    assert(prefers(voter, a, b));
    let (i, j) = choose|i: int, j: int|
        0 <= i < voter.len() && 0 <= j < voter.len() && (#[trigger] voter[i]).0 == a && (
        #[trigger] voter[j]).0 == b && voter[i].1 < voter[j].1;
    lemma_highest_handle_bounds(ballots, 0, i);
    lemma_highest_handle_bounds(ballots, 0, j);

    lemma_all_prefer_is_full_count(ballots, a, b);
    lemma_counts_fit(ballots, a, b);
    assert(w[a][b] == ballots.len());
    lemma_widest_width_covers_edge(w, a, b);
    lemma_widest_matrix_entry(w, a, b);
    lemma_widest_matrix_entry(w, b, a);

    lemma_via_is_widest(w, b, a);
    let back = widest_width(w, b, a);
    assert(is_widest_width(w, b, a, back));
    let p = choose|p: Seq<int>| #[trigger]
        is_path_between(w.len(), p, b, a) && path_width(w, p) == back;
    if back >= ballots.len() {
        lemma_prefers_is_asymmetric(voter, a, b);
        assert(a != b) by {
            if a == b {
                lemma_same_candidate_same_place(voter, i, j);
            }
        }
        assert(p.len() >= 2);
        lemma_full_width_path_is_unanimous(ballots, p);
        assert(prefers(voter, b, a));
    }
    lemma_stronger_scores_higher(w, a, b);
}

/// Where every voter prefers `a` to `b`, the Schulze ranking places `a`
/// ahead of `b`.
pub proof fn lemma_unanimous_preference_is_ranked_ahead(
    ballots: Seq<Seq<(nat, Rank)>>,
    ranking: Seq<nat>,
    a: int,
    b: int,
) -> (places: (int, int))
    requires
        all_unique_candidates(ballots),
        counts_fit(ballots),
        ballots.len() > 0,
        all_prefer(ballots, a, b),
        is_schulze_ranking(ballots, ranking),
    ensures
        0 <= places.0 < places.1 < ranking.len(),
        ranking[places.0] == a,
        ranking[places.1] == b,
{
    lemma_unanimous_preference_is_stronger(ballots, a, b);
    assert(ranking.contains(a as nat));
    assert(ranking.contains(b as nat));
    let i = choose|i: int| 0 <= i < ranking.len() && ranking[i] == a as nat;
    let j = choose|j: int| 0 <= j < ranking.len() && ranking[j] == b as nat;
    if j < i {
        assert(ranks_ahead(ballots, ranking[j] as int, ranking[i] as int));
    }
    (i, j)
}

/// An election has one Schulze ranking.
pub proof fn lemma_schulze_ranking_is_unique(
    ballots: Seq<Seq<(nat, Rank)>>,
    first: Seq<nat>,
    second: Seq<nat>,
)
    requires
        is_schulze_ranking(ballots, first),
        is_schulze_ranking(ballots, second),
    ensures
        first == second,
{
    assert forall|i: int| 0 <= i < first.len() implies first[i] == second[i] by {
        lemma_same_place_in_both(ballots, first, second, i);
    }
    assert(first =~= second);
}

/// Two rankings of one election agree up to and at every place: by
/// induction on the place.
proof fn lemma_same_place_in_both(
    ballots: Seq<Seq<(nat, Rank)>>,
    first: Seq<nat>,
    second: Seq<nat>,
    place: int,
)
    requires
        is_schulze_ranking(ballots, first),
        is_schulze_ranking(ballots, second),
        0 <= place < first.len(),
    ensures
        forall|i: int| 0 <= i <= place ==> first[i] == second[i],
    decreases place,
{
    if place > 0 {
        lemma_same_place_in_both(ballots, first, second, place - 1);
    }
    // The candidate at this place in the one ranking is at this place or
    // later in the other, since the earlier places hold other candidates.
    let here = first[place];
    let there = second[place];
    assert(second.contains(here));
    let j = choose|j: int| 0 <= j < second.len() && second[j] == here;
    assert(first.contains(there));
    let i = choose|i: int| 0 <= i < first.len() && first[i] == there;
    if j < place {
        assert(first[j] == second[j]);
        assert(ranks_ahead(ballots, first[j] as int, first[place] as int));
    }
    if i < place {
        assert(first[i] == second[i]);
        assert(ranks_ahead(ballots, second[i] as int, second[place] as int));
    }
    if j > place {
        assert(ranks_ahead(ballots, second[place] as int, second[j] as int));
    }
    if i > place {
        assert(ranks_ahead(ballots, first[place] as int, first[i] as int));
    }
}

/// The first of the Schulze ranking is the winner.
pub proof fn lemma_first_ranked_is_winner(ballots: Seq<Seq<(nat, Rank)>>, ranking: Seq<nat>)
    requires
        is_schulze_ranking(ballots, ranking),
    ensures
        is_schulze_winner(ballots, ranking[0] as int),
{
    assert forall|d: int|
        0 <= d < num_candidates(ballots) && d != ranking[0] implies #[trigger] ranks_ahead(
        ballots,
        ranking[0] as int,
        d,
    ) by {
        assert(ranking.contains(d as nat));
        let j = choose|j: int| 0 <= j < ranking.len() && ranking[j] == d as nat;
        assert(ranks_ahead(ballots, ranking[0] as int, ranking[j] as int));
    }
}

/// An election has one Schulze winner.
pub proof fn lemma_schulze_winner_is_unique(ballots: Seq<Seq<(nat, Rank)>>, first: int, second: int)
    requires
        is_schulze_winner(ballots, first),
        is_schulze_winner(ballots, second),
    ensures
        first == second,
{
    if first != second {
        assert(ranks_ahead(ballots, first, second));
        assert(ranks_ahead(ballots, second, first));
    }
}

} // verus!
