//! Pairwise preferences: for every two candidates, how many voters prefer
//! the one to the other.

use vstd::prelude::*;
use crate::{Ballot, BallotSlice, Candidate, Rank};
use crate::ballot::{
    all_unique_candidates, handles_fit, has_unique_candidates, highest_id, lemma_handles_fit,
    lemma_highest_handle_bounds, num_candidates,
};
use crate::counting::{count_below, lemma_count_bounded, lemma_count_grows};
use crate::widest_path::is_square;

verus! {

/// On `ballot`, candidate `x` has a strictly lower rank than candidate `y`:
/// the voter prefers `x` to `y`. A candidate who is not on the ballot is
/// neither preferred to another nor passed over for one.
pub open spec fn prefers(ballot: Seq<(nat, Rank)>, x: int, y: int) -> bool {
    exists|i: int, j: int|
        0 <= i < ballot.len() && 0 <= j < ballot.len() && (#[trigger] ballot[i]).0 == x && (
        #[trigger] ballot[j]).0 == y && ballot[i].1 < ballot[j].1
}

/// Whether the ballot at a given place among `ballots` prefers `x` to `y`.
pub open spec fn prefers_at(ballots: Seq<Seq<(nat, Rank)>>, x: int, y: int) -> spec_fn(int) -> bool {
    |k: int| prefers(ballots[k], x, y)
}

/// How many of `ballots` prefer `x` to `y`.
pub open spec fn preference_count(ballots: Seq<Seq<(nat, Rank)>>, x: int, y: int) -> nat {
    count_below(ballots.len(), prefers_at(ballots, x, y))
}

/// On a ballot without duplicates a candidate has one place.
pub proof fn lemma_same_candidate_same_place(ballot: Seq<(nat, Rank)>, p: int, q: int)
    requires
        has_unique_candidates(ballot),
        0 <= p < ballot.len(),
        0 <= q < ballot.len(),
        ballot[p].0 == ballot[q].0,
    ensures
        p == q,
{
    if p < q {
        assert(ballot[p].0 != ballot[q].0);
    } else if q < p {
        assert(ballot[q].0 != ballot[p].0);
    }
}

/// Every count of the election is a value that an `i32` holds: as it is
/// where there are no more ballots than the largest `i32`.
pub open spec fn counts_fit(ballots: Seq<Seq<(nat, Rank)>>) -> bool {
    ballots.len() <= i32::MAX || forall|x: int, y: int| #[trigger]
        preference_count(ballots, x, y) <= i32::MAX
}

/// Where the counts fit, each of them is a value that an `i32` holds.
pub proof fn lemma_counts_fit(ballots: Seq<Seq<(nat, Rank)>>, x: int, y: int)
    requires
        counts_fit(ballots),
    ensures
        preference_count(ballots, x, y) <= i32::MAX,
{
    lemma_count_bounded(ballots.len(), prefers_at(ballots, x, y));
}

/// The matrix that holds at `[x][y]` how many of `ballots` prefer `x` to
/// `y`, for the candidates of the election.
pub open spec fn pairwise_matrix(ballots: Seq<Seq<(nat, Rank)>>) -> Seq<Seq<i32>> {
    Seq::new(
        num_candidates(ballots),
        |x: int|
            Seq::new(
                num_candidates(ballots),
                |y: int| preference_count(ballots, x, y) as i32,
            ),
    )
}

/// For every two candidates of an election, the number of voters who prefer
/// the one to the other.
#[derive(Debug)]
pub struct PairwisePreferences {
    // counts[x][y] is the number of voters who prefer candidate x to candidate y.
    counts: Vec<Vec<i32>>,
}

impl View for PairwisePreferences {
    type V = Seq<Seq<i32>>;

    closed spec fn view(&self) -> Seq<Seq<i32>> {
        self.counts.deep_view()
    }
}

impl PairwisePreferences {
    /// The counts form a square: one row and one column for each candidate.
    pub open spec fn wf(&self) -> bool {
        is_square(self@)
    }

    /// The counts of an election of `num_candidates` candidates in which
    /// nobody has voted yet.
    pub fn new(num_candidates: usize) -> (preferences: PairwisePreferences)
        ensures
            preferences.wf(),
            preferences@.len() == num_candidates,
            forall|x: int, y: int|
                0 <= x < num_candidates && 0 <= y < num_candidates ==> (
                #[trigger] preferences@[x][y]) == 0,
    {
        let mut counts: Vec<Vec<i32>> = Vec::new();
        for x in 0..num_candidates
            invariant
                counts.len() == x,
                forall|a: int| 0 <= a < x ==> (#[trigger] counts@[a])@.len() == num_candidates,
                forall|a: int, b: int|
                    0 <= a < x && 0 <= b < num_candidates ==> (#[trigger] counts@[a]@[b]) == 0,
        {
            let mut row: Vec<i32> = Vec::new();
            for y in 0..num_candidates
                invariant
                    row.len() == y,
                    forall|b: int| 0 <= b < y ==> #[trigger] row@[b] == 0,
            {
                row.push(0);
            }
            counts.push(row);
        }
        proof {
            let view = counts.deep_view();
            assert forall|a: int| 0 <= a < view.len() implies (#[trigger] view[a]).len()
                == view.len() by {
                assert(counts@[a]@.len() == num_candidates);
            }
            assert forall|a: int, b: int|
                0 <= a < num_candidates && 0 <= b < num_candidates implies (#[trigger] view[a][b])
                == 0 by {
                assert(counts@[a]@[b] == 0);
            }
        }
        PairwisePreferences { counts }
    }

    /// How many candidates the counts are for.
    pub fn num_candidates(&self) -> (n: usize)
        ensures
            n == self@.len(),
    {
        self.counts.len()
    }

    /// The counts themselves: at `[x][y]` the number of voters who prefer
    /// candidate `x` to candidate `y`.
    pub fn counts(&self) -> (counts: &Vec<Vec<i32>>)
        ensures
            counts.deep_view() == self@,
    {
        &self.counts
    }

    /// The pairwise preferences of an election.
    ///
    /// The election has one candidate more than the highest handle on any
    /// ballot. Each ballot counts once for every two of its candidates that
    /// it ranks differently.
    pub fn from_ballots(ballots: &[Ballot]) -> (preferences: PairwisePreferences)
        requires
            all_unique_candidates(ballots.deep_view()),
            counts_fit(ballots.deep_view()),
            handles_fit(ballots.deep_view()),
        ensures
            preferences.wf(),
            preferences@ == pairwise_matrix(ballots.deep_view()),
            preferences@.len() == num_candidates(ballots.deep_view()),
            forall|x: int, y: int|
                0 <= x < preferences@.len() && 0 <= y < preferences@.len() ==> (
                #[trigger] preferences@[x][y]) == preference_count(ballots.deep_view(), x, y),
    {
        let ghost election = ballots.deep_view();
        proof {
            lemma_handles_fit(election);
        }
        let highest_id = highest_id(ballots);
        let mut count = PairwisePreferences::new(highest_id + 1);
        let ghost n = num_candidates(election) as int;

        for k in 0..ballots.len()
            invariant
                election == ballots.deep_view(),
                all_unique_candidates(election),
                counts_fit(election),
                n == num_candidates(election),
                count.wf(),
                count@.len() == n,
                forall|x: int, y: int|
                    0 <= x < n && 0 <= y < n ==> (#[trigger] count@[x][y]) == count_below(
                        k as nat,
                        prefers_at(election, x, y),
                    ),
        {
            let ballot = ballots[k].as_slice();
            proof {
                assert(ballot.deep_view() =~= election[k as int]);
                assert forall|i: int| 0 <= i < ballot.len() implies (
                #[trigger] ballot.deep_view()[i]).0 < n by {
                    lemma_highest_handle_bounds(election, k as int, i);
                }
                assert forall|x: int, y: int|
                    0 <= x < n && 0 <= y < n && prefers(ballot.deep_view(), x, y) implies (
                #[trigger] count@[x][y]) < i32::MAX by {
                    assert(prefers_at(election, x, y)(k as int));
                    lemma_count_grows((k + 1) as nat, election.len(), prefers_at(election, x, y));
                    lemma_counts_fit(election, x, y);
                }
            }
            count.count_ballot(ballot);
        }

        proof {
            let expected = pairwise_matrix(election);
            assert forall|x: int, y: int| 0 <= x < n && 0 <= y < n implies (#[trigger] count@[x][y])
                == preference_count(election, x, y) by {}
            assert forall|x: int, y: int| 0 <= x < n && 0 <= y < n implies (#[trigger] count@[x][y])
                == expected[x][y] by {
                lemma_counts_fit(election, x, y);
            }
            assert forall|x: int| 0 <= x < n implies #[trigger] count@[x] =~= expected[x] by {
                assert(count@[x].len() == n);
                assert forall|y: int| 0 <= y < n implies count@[x][y] == expected[x][y] by {}
            }
            assert(count@ =~= expected);
        }
        count
    }

    /// Counts one more ballot.
    ///
    /// Every two entries of the ballot are compared once. The entry with the
    /// lower rank is preferred; entries of equal rank count for neither.
    pub fn count_ballot(&mut self, ballot: &BallotSlice)
        requires
            old(self).wf(),
            has_unique_candidates(ballot.deep_view()),
            forall|i: int|
                0 <= i < ballot.len() ==> (#[trigger] ballot.deep_view()[i]).0 < old(self)@.len(),
            forall|x: int, y: int|
                0 <= x < old(self)@.len() && 0 <= y < old(self)@.len() && prefers(
                    ballot.deep_view(),
                    x,
                    y,
                ) ==> (#[trigger] old(self)@[x][y]) < i32::MAX,
        ensures
            final(self).wf(),
            final(self)@.len() == old(self)@.len(),
            forall|x: int, y: int|
                0 <= x < old(self)@.len() && 0 <= y < old(self)@.len() ==> (
                #[trigger] final(self)@[x][y]) == old(self)@[x][y] + if prefers(
                    ballot.deep_view(),
                    x,
                    y,
                ) {
                    1int
                } else {
                    0int
                },
    {
        let ghost entries = ballot.deep_view();
        let ghost before = self@;
        let n = self.counts.len();
        let len = ballot.len();
        assert forall|x: int| 0 <= x < n implies (#[trigger] self.counts@[x])@.len() == n by {
            assert(before[x].len() == n);
        }
        assert forall|x: int, y: int| 0 <= x < n && 0 <= y < n implies (
        #[trigger] self.counts@[x]@[y]) == before[x][y] by {}
        assert forall|x: int, y: int| 0 <= x < n && 0 <= y < n implies !prefers_before(
            entries,
            x,
            y,
            0,
            1,
        ) by {}
        for i in 0..len
            invariant
                entries == ballot.deep_view(),
                len == ballot.len(),
                has_unique_candidates(entries),
                n == before.len(),
                is_square(before),
                forall|a: int| 0 <= a < len ==> (#[trigger] entries[a]).0 < n,
                forall|x: int, y: int|
                    0 <= x < n && 0 <= y < n && prefers(entries, x, y) ==> (#[trigger] before[x][y])
                        < i32::MAX,
                self.counts.len() == n,
                forall|x: int| 0 <= x < n ==> (#[trigger] self.counts@[x])@.len() == n,
                forall|x: int, y: int|
                    0 <= x < n && 0 <= y < n ==> (#[trigger] self.counts@[x]@[y]) == before[x][y]
                        + if prefers_before(entries, x, y, i as int, i + 1) {
                        1int
                    } else {
                        0int
                    },
        {
            for j in (i + 1)..len
                invariant
                    entries == ballot.deep_view(),
                    len == ballot.len(),
                    i < len,
                    has_unique_candidates(entries),
                    n == before.len(),
                    is_square(before),
                    forall|a: int| 0 <= a < len ==> (#[trigger] entries[a]).0 < n,
                    forall|x: int, y: int|
                        0 <= x < n && 0 <= y < n && prefers(entries, x, y) ==> (
                        #[trigger] before[x][y]) < i32::MAX,
                    self.counts.len() == n,
                    forall|x: int| 0 <= x < n ==> (#[trigger] self.counts@[x])@.len() == n,
                    forall|x: int, y: int|
                        0 <= x < n && 0 <= y < n ==> (#[trigger] self.counts@[x]@[y])
                            == before[x][y] + if prefers_before(
                            entries,
                            x,
                            y,
                            i as int,
                            j as int,
                        ) {
                            1int
                        } else {
                            0int
                        },
            {
                let (candidate_a, rank_a) = ballot[i];
                let (candidate_b, rank_b) = ballot[j];
                assert(entries[i as int] == (candidate_a@, rank_a));
                assert(entries[j as int] == (candidate_b@, rank_b));
                proof {
                    assert forall|x: int, y: int| 0 <= x < n && 0 <= y < n implies (prefers_before(
                        entries,
                        x,
                        y,
                        i as int,
                        j + 1,
                    ) == (prefers_before(entries, x, y, i as int, j as int)
                        || pair_prefers(entries, i as int, j as int, x, y))) && (
                    pair_prefers(entries, i as int, j as int, x, y)
                        ==> !prefers_before(entries, x, y, i as int, j as int)) by {
                        lemma_prefers_before_step(entries, i as int, j as int, x, y);
                    }
                }
                if rank_a < rank_b {
                    // candidate_a is preferred to candidate_b
                    let count = self.counts[candidate_a.id()][candidate_b.id()];
                    self.counts[candidate_a.id()][candidate_b.id()] = count + 1;
                } else if rank_b < rank_a {
                    // candidate_b is preferred to candidate_a
                    let count = self.counts[candidate_b.id()][candidate_a.id()];
                    self.counts[candidate_b.id()][candidate_a.id()] = count + 1;
                }
                // otherwise the ranks are equal, and the counts stay
            }
            proof {
                assert forall|x: int, y: int| 0 <= x < n && 0 <= y < n implies prefers_before(
                    entries,
                    x,
                    y,
                    i as int,
                    len as int,
                ) == prefers_before(entries, x, y, i + 1, i + 2) by {
                    lemma_prefers_before_row(entries, x, y, i as int);
                }
            }
        }
        proof {
            let after = self@;
            assert forall|x: int| 0 <= x < after.len() implies (#[trigger] after[x]).len()
                == after.len() by {
                assert(self.counts@[x]@.len() == n);
            }
            assert forall|x: int, y: int| 0 <= x < n && 0 <= y < n implies (#[trigger] after[x][y])
                == before[x][y] + if prefers(entries, x, y) {
                1int
            } else {
                0int
            } by {
                assert(after[x][y] == self.counts@[x]@[y]);
                lemma_prefers_before_all(entries, x, y, len + 1);
            }
        }
    }

    /// The candidates the counts are for, by ascending handle.
    pub fn candidates(&self) -> (candidates: Vec<Candidate>)
        ensures
            candidates.len() == self@.len(),
            forall|c: int| 0 <= c < candidates.len() ==> (#[trigger] candidates@[c])@ == c,
    {
        let mut candidates: Vec<Candidate> = Vec::new();
        let n = self.num_candidates();
        for candidate_id in 0..n
            invariant
                candidates.len() == candidate_id,
                forall|c: int| 0 <= c < candidate_id ==> (#[trigger] candidates@[c])@ == c,
        {
            candidates.push(Candidate::from(candidate_id));
        }
        candidates
    }
}

// What follows serves the proof of `count_ballot`, which takes the pairs of
// places `p < q` of a ballot row by row.

/// The entries at the places `p < q` of `ballot` are those of `x` and `y`,
/// in either order, and `x` has the lower rank.
spec fn pair_prefers(ballot: Seq<(nat, Rank)>, p: int, q: int, x: int, y: int) -> bool {
    &&& 0 <= p < q < ballot.len()
    &&& {
        ||| ballot[p].0 == x && ballot[q].0 == y && ballot[p].1 < ballot[q].1
        ||| ballot[q].0 == x && ballot[p].0 == y && ballot[q].1 < ballot[p].1
    }
}

/// The pair of places `(p, q)` comes before `(i, j)` when the pairs
/// `p < q` are taken row by row.
spec fn pair_before(p: int, q: int, i: int, j: int) -> bool {
    p < i || (p == i && q < j)
}

/// Among the pairs of places before `(i, j)`, one shows that `ballot`
/// prefers `x` to `y`.
spec fn prefers_before(ballot: Seq<(nat, Rank)>, x: int, y: int, i: int, j: int) -> bool {
    exists|p: int, q: int| pair_before(p, q, i, j) && #[trigger] pair_prefers(ballot, p, q, x, y)
}

/// Taking the pair `(i, j)` into account adds exactly the preference that
/// this pair shows, and on a ballot without duplicates no earlier pair
/// showed the same one.
proof fn lemma_prefers_before_step(ballot: Seq<(nat, Rank)>, i: int, j: int, x: int, y: int)
    requires
        has_unique_candidates(ballot),
        0 <= i < j < ballot.len(),
    ensures
        prefers_before(ballot, x, y, i, j + 1) == (prefers_before(ballot, x, y, i, j)
            || pair_prefers(ballot, i, j, x, y)),
        pair_prefers(ballot, i, j, x, y) ==> !prefers_before(ballot, x, y, i, j),
{
    if prefers_before(ballot, x, y, i, j + 1) {
        let (p, q) = choose|p: int, q: int|
            pair_before(p, q, i, j + 1) && #[trigger] pair_prefers(ballot, p, q, x, y);
        if !(p == i && q == j) {
            assert(pair_before(p, q, i, j) && pair_prefers(ballot, p, q, x, y));
        }
    }
    if prefers_before(ballot, x, y, i, j) {
        let (p, q) = choose|p: int, q: int|
            pair_before(p, q, i, j) && #[trigger] pair_prefers(ballot, p, q, x, y);
        assert(pair_before(p, q, i, j + 1) && pair_prefers(ballot, p, q, x, y));
        if pair_prefers(ballot, i, j, x, y) {
            lemma_same_candidate_same_place(ballot, p, i);
            lemma_same_candidate_same_place(ballot, p, j);
            lemma_same_candidate_same_place(ballot, q, i);
            lemma_same_candidate_same_place(ballot, q, j);
        }
    }
    if pair_prefers(ballot, i, j, x, y) {
        assert(pair_before(i, j, i, j + 1) && pair_prefers(ballot, i, j, x, y));
    }
}

/// Once every row of pairs is taken into account, what the pairs show is
/// what the ballot prefers.
proof fn lemma_prefers_before_all(ballot: Seq<(nat, Rank)>, x: int, y: int, column: int)
    ensures
        prefers_before(ballot, x, y, ballot.len() as int, column) == prefers(ballot, x, y),
{
    let len = ballot.len() as int;
    if prefers_before(ballot, x, y, len, column) {
        let (p, q) = choose|p: int, q: int|
            pair_before(p, q, len, column) && #[trigger] pair_prefers(ballot, p, q, x, y);
        if ballot[p].0 == x && ballot[q].0 == y && ballot[p].1 < ballot[q].1 {
            assert(ballot[p].0 == x && ballot[q].0 == y && ballot[p].1 < ballot[q].1);
        } else {
            assert(ballot[q].0 == x && ballot[p].0 == y && ballot[q].1 < ballot[p].1);
        }
        assert(prefers(ballot, x, y));
    }
    if prefers(ballot, x, y) {
        let (i, j) = choose|i: int, j: int|
            0 <= i < ballot.len() && 0 <= j < ballot.len() && (#[trigger] ballot[i]).0 == x && (
            #[trigger] ballot[j]).0 == y && ballot[i].1 < ballot[j].1;
        if i < j {
            assert(pair_before(i, j, len, column) && pair_prefers(ballot, i, j, x, y));
        } else {
            assert(pair_before(j, i, len, column) && pair_prefers(ballot, j, i, x, y));
        }
    }
}

/// The pairs of places before the end of row `i` are those before the
/// start of row `i + 1`.
proof fn lemma_prefers_before_row(ballot: Seq<(nat, Rank)>, x: int, y: int, i: int)
    ensures
        prefers_before(ballot, x, y, i, ballot.len() as int) == prefers_before(
            ballot,
            x,
            y,
            i + 1,
            i + 2,
        ),
{
    let len = ballot.len() as int;
    if prefers_before(ballot, x, y, i, len) {
        let (p, q) = choose|p: int, q: int|
            pair_before(p, q, i, len) && #[trigger] pair_prefers(ballot, p, q, x, y);
        assert(pair_before(p, q, i + 1, i + 2) && pair_prefers(ballot, p, q, x, y));
    }
    if prefers_before(ballot, x, y, i + 1, i + 2) {
        let (p, q) = choose|p: int, q: int|
            pair_before(p, q, i + 1, i + 2) && #[trigger] pair_prefers(ballot, p, q, x, y);
        assert(pair_before(p, q, i, len) && pair_prefers(ballot, p, q, x, y));
    }
}

} // verus!
