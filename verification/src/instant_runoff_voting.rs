//! Instant-runoff voting: while more than one candidate is some voter's
//! first choice, the one with the fewest first choices is struck from every
//! ballot.
//!
//! Two rules settle what the ballots leave open. On a ballot that gives its
//! lowest rank to several candidates, the one with the lowest handle is the
//! first choice. Of several candidates with the fewest first choices, the
//! one with the highest handle is struck.

use vstd::prelude::*;
use crate::{Ballot, BallotSlice, Candidate, Rank};
use crate::ballot::{
    all_unique_candidates, handles_fit, highest_handle, highest_id, lemma_handles_fit,
    lemma_highest_handle_attained, lemma_highest_handle_bounds, lemma_highest_handle_empty,
    num_candidates,
};
use crate::counting::{
    count_below, lemma_count_bounded, lemma_count_monotone, lemma_count_none, lemma_count_single,
    lemma_count_two,
};

verus! {

/// Entry `a` is chosen before entry `b`: it has the lower rank, or the same
/// rank and no higher handle.
pub open spec fn chosen_before(a: (nat, Rank), b: (nat, Rank)) -> bool {
    a.1 < b.1 || (a.1 == b.1 && a.0 <= b.0)
}

/// The entry at place `i` of `ballot` is chosen before every entry.
pub open spec fn leads(ballot: Seq<(nat, Rank)>, i: int) -> bool {
    forall|j: int| 0 <= j < ballot.len() ==> chosen_before(ballot[i], #[trigger] ballot[j])
}

/// Candidate `c` is the first choice of `ballot`. A ballot without entries
/// has no first choice.
pub open spec fn is_first_choice(ballot: Seq<(nat, Rank)>, c: int) -> bool {
    exists|i: int| 0 <= i < ballot.len() && (#[trigger] ballot[i]).0 == c && leads(ballot, i)
}

/// Whether the ballot at a given place among `ballots` has `c` as its first
/// choice.
pub open spec fn first_choice_at(ballots: Seq<Seq<(nat, Rank)>>, c: int) -> spec_fn(int) -> bool {
    |k: int| is_first_choice(ballots[k], c)
}

/// How many of `ballots` have `c` as their first choice.
pub open spec fn first_choice_count(ballots: Seq<Seq<(nat, Rank)>>, c: int) -> nat {
    count_below(ballots.len(), first_choice_at(ballots, c))
}

/// For each candidate of the election, how many ballots have that candidate
/// as their first choice.
pub open spec fn first_choice_counts(ballots: Seq<Seq<(nat, Rank)>>) -> Seq<nat> {
    Seq::new(num_candidates(ballots), |c: int| first_choice_count(ballots, c))
}

/// The tally as natural numbers.
pub open spec fn as_counts(tally: Seq<usize>) -> Seq<nat> {
    Seq::new(tally.len(), |c: int| tally[c] as nat)
}

/// Whether a candidate has at least one of the first choices counted in
/// `counts`.
pub open spec fn has_votes(counts: Seq<nat>) -> spec_fn(int) -> bool {
    |c: int| counts[c] > 0
}

/// How many candidates have at least one first choice.
pub open spec fn leader_count(counts: Seq<nat>) -> nat {
    count_below(counts.len(), has_votes(counts))
}

/// Among the candidates below `bound` who have a first choice, `c` has the
/// fewest, and the highest handle of those with as few.
pub open spec fn is_weakest_below(counts: Seq<nat>, c: int, bound: int) -> bool {
    &&& 0 <= c < bound
    &&& counts[c] > 0
    &&& forall|d: int|
        0 <= d < bound && #[trigger] counts[d] > 0 ==> counts[c] < counts[d] || (counts[c]
            == counts[d] && c >= d)
}

/// Among the candidates who have a first choice, `c` has the fewest, and
/// the highest handle of those with as few.
pub open spec fn is_weakest(counts: Seq<nat>, c: int) -> bool {
    is_weakest_below(counts, c, counts.len() as int)
}

/// The candidate to strike next: the weakest of those who have a first
/// choice.
pub open spec fn weakest(ballots: Seq<Seq<(nat, Rank)>>) -> int {
    choose|c: int| is_weakest(first_choice_counts(ballots), c)
}

/// `ballot` without the entries of candidate `c`, the others in their
/// order.
pub open spec fn without(ballot: Seq<(nat, Rank)>, c: int) -> Seq<(nat, Rank)>
    decreases ballot.len(),
{
    if ballot.len() == 0 {
        ballot
    } else if ballot.last().0 == c {
        without(ballot.drop_last(), c)
    } else {
        without(ballot.drop_last(), c).push(ballot.last())
    }
}

/// The ballots with candidate `c` struck from each.
pub open spec fn eliminate(ballots: Seq<Seq<(nat, Rank)>>, c: int) -> Seq<Seq<(nat, Rank)>> {
    Seq::new(ballots.len(), |k: int| without(ballots[k], c))
}

/// The number of entries on all of `ballots` together.
pub open spec fn total_entries(ballots: Seq<Seq<(nat, Rank)>>) -> nat
    decreases ballots.len(),
{
    if ballots.len() == 0 {
        0
    } else {
        total_entries(ballots.drop_last()) + ballots.last().len()
    }
}

/// Some ballot has an entry.
pub open spec fn names_a_candidate(ballots: Seq<Seq<(nat, Rank)>>) -> bool {
    exists|k: int| 0 <= k < ballots.len() && (#[trigger] ballots[k]).len() > 0
}

/// Candidate `c` is on one of `ballots`.
pub open spec fn is_named(ballots: Seq<Seq<(nat, Rank)>>, c: int) -> bool {
    exists|k: int, i: int|
        0 <= k < ballots.len() && 0 <= i < ballots[k].len() && (#[trigger] ballots[k][i]).0 == c
}

/// Whether the ballot at a given place among `ballots` has a first choice
/// who is not `c`.
pub open spec fn other_first_choice_at(ballots: Seq<Seq<(nat, Rank)>>, c: int) -> spec_fn(int) -> bool {
    |k: int| ballots[k].len() > 0 && !is_first_choice(ballots[k], c)
}

/// Candidate `c` is the first choice of more ballots than all other
/// candidates together.
pub open spec fn has_majority(ballots: Seq<Seq<(nat, Rank)>>, c: int) -> bool {
    first_choice_count(ballots, c) > count_below(ballots.len(), other_first_choice_at(ballots, c))
}

/// The winner by instant runoff: where at most one candidate is a first
/// choice, that candidate; else the winner of the ballots from which the
/// weakest candidate is struck.
pub open spec fn irv_winner(ballots: Seq<Seq<(nat, Rank)>>) -> int
    decreases total_entries(ballots),
    via irv_winner_terminates
{
    if leader_count(first_choice_counts(ballots)) <= 1 {
        weakest(ballots)
    } else {
        irv_winner(eliminate(ballots, weakest(ballots)))
    }
}

#[via_fn]
proof fn irv_winner_terminates(ballots: Seq<Seq<(nat, Rank)>>) {
    if leader_count(first_choice_counts(ballots)) > 1 {
        lemma_strike_weakest_shrinks(ballots);
    }
}

/// Instant Runoff Vote. While more than one candidate is some ballot's
/// first choice, remove the one with the fewest first choice votes and
/// repeat.
///
/// Requires that each ballot has unique candidates (no repeats), and that
/// some ballot names a candidate. A ballot on which no candidate is left
/// counts for nobody.
pub fn instant_runoff_vote(ballots: Vec<Ballot>) -> (winner: Candidate)
    requires
        all_unique_candidates(ballots.deep_view()),
        names_a_candidate(ballots.deep_view()),
        handles_fit(ballots.deep_view()),
    ensures
        winner@ == irv_winner(ballots.deep_view()),
        is_named(ballots.deep_view(), winner@ as int),
{
    let ghost election = ballots.deep_view();
    proof {
        lemma_irv_winner_is_named(election);
        lemma_handles_fit(election);
    }
    let mut remaining = ballots;
    loop
        invariant
            election == ballots.deep_view(),
            is_named(election, irv_winner(election)),
            names_a_candidate(remaining.deep_view()),
            handles_fit(remaining.deep_view()),
            irv_winner(remaining.deep_view()) == irv_winner(election),
        decreases total_entries(remaining.deep_view()),
    {
        let ghost left = remaining.deep_view();
        let all_remaining = remaining.as_slice();
        assert(all_remaining.deep_view() =~= left);
        let tally = first_choice_tally(all_remaining);
        proof {
            lemma_some_leader(left);
            lemma_weakest_exists(left);
            lemma_handles_fit(left);
            lemma_handles_fit(eliminate(left, weakest(left)));
        }

        if count_leaders(&tally) == 1 {
            // The weakest of one is the only candidate with a first choice.
            let winner = weakest_leader(&tally);
            proof {
                lemma_weakest_unique(first_choice_counts(left), winner@ as int, weakest(left));
            }
            return winner;
        }

        let weakest_candidate = weakest_leader(&tally);
        proof {
            lemma_weakest_unique(first_choice_counts(left), weakest_candidate@ as int, weakest(left));
            lemma_strike_weakest_shrinks(left);
            lemma_strike_weakest_leaves_some(left);
            lemma_eliminate_highest_handle(left, weakest(left));
        }
        remove_candidate(&mut remaining, weakest_candidate);
    }
}

/// For each candidate of the election, the number of ballots whose first
/// choice the candidate is. A ballot without entries counts for nobody.
pub fn first_choice_tally(ballots: &[Ballot]) -> (counts: Vec<usize>)
    requires
        handles_fit(ballots.deep_view()),
    ensures
        as_counts(counts@) == first_choice_counts(ballots.deep_view()),
        counts.len() == num_candidates(ballots.deep_view()),
        forall|c: int|
            0 <= c < counts.len() ==> #[trigger] counts@[c] == first_choice_count(
                ballots.deep_view(),
                c,
            ),
{
    let ghost election = ballots.deep_view();
    proof {
        lemma_handles_fit(election);
    }
    let n = highest_id(ballots) + 1;
    let mut counts: Vec<usize> = Vec::new();
    for c in 0..n
        invariant
            counts.len() == c,
            forall|d: int| 0 <= d < c ==> #[trigger] counts@[d] == 0,
    {
        counts.push(0);
    }
    for k in 0..ballots.len()
        invariant
            election == ballots.deep_view(),
            n == num_candidates(election),
            counts.len() == n,
            forall|c: int|
                0 <= c < n ==> #[trigger] counts@[c] == count_below(
                    k as nat,
                    first_choice_at(election, c),
                ),
    {
        let ballot = ballots[k].as_slice();
        assert(ballot.deep_view() =~= election[k as int]);
        if ballot.len() > 0 {
            let first = first_choice_candidate(ballot);
            proof {
                let i = choose|i: int|
                    0 <= i < election[k as int].len() && (#[trigger] election[k as int][i]).0
                        == first@ && leads(election[k as int], i);
                lemma_highest_handle_bounds(election, k as int, i);
                lemma_count_bounded(k as nat, first_choice_at(election, first@ as int));
                assert forall|c: int| 0 <= c < n && c != first@ implies !is_first_choice(
                    election[k as int],
                    c,
                ) by {
                    if is_first_choice(election[k as int], c) {
                        lemma_first_choice_unique(election[k as int], c, first@ as int);
                    }
                }
            }
            let count = counts[first.id()];
            counts.set(first.id(), count + 1);
        }
    }
    assert(as_counts(counts@) =~= first_choice_counts(election));
    counts
}

/// The first choice of a ballot: the candidate with the lowest rank, and of
/// several with that rank the one with the lowest handle.
pub fn first_choice_candidate(ballot: &BallotSlice) -> (first: Candidate)
    requires
        ballot.len() > 0,
    ensures
        is_first_choice(ballot.deep_view(), first@ as int),
{
    let ghost entries = ballot.deep_view();
    let mut best: usize = 0;
    for i in 1..ballot.len()
        invariant
            entries == ballot.deep_view(),
            best < i,
            forall|j: int| 0 <= j < i ==> chosen_before(entries[best as int], #[trigger] entries[j]),
    {
        let (candidate, rank) = ballot[i];
        let (best_candidate, best_rank) = ballot[best];
        assert(entries[i as int] == (candidate@, rank));
        assert(entries[best as int] == (best_candidate@, best_rank));
        if rank < best_rank || (rank == best_rank && candidate.id() < best_candidate.id()) {
            best = i;
        }
    }
    let (first, _) = ballot[best];
    assert(entries[best as int].0 == first@ && leads(entries, best as int));
    first
}

/// How many candidates have at least one first choice.
pub fn count_leaders(tally: &Vec<usize>) -> (leaders: usize)
    ensures
        leaders == leader_count(as_counts(tally@)),
{
    let ghost counts = as_counts(tally@);
    let mut leaders: usize = 0;
    for c in 0..tally.len()
        invariant
            counts == as_counts(tally@),
            leaders == count_below(c as nat, has_votes(counts)),
    {
        proof {
            lemma_count_bounded(c as nat, has_votes(counts));
        }
        if tally[c] > 0 {
            leaders += 1;
        }
    }
    leaders
}

/// Of the candidates with at least one first choice, the one with the
/// fewest; of several with as few, the one with the highest handle.
pub fn weakest_leader(tally: &Vec<usize>) -> (last: Candidate)
    requires
        exists|c: int| 0 <= c < tally.len() && #[trigger] tally@[c] > 0,
    ensures
        is_weakest(as_counts(tally@), last@ as int),
{
    let ghost counts = as_counts(tally@);
    proof {
        let c = choose|c: int| 0 <= c < tally.len() && #[trigger] tally@[c] > 0;
        assert(has_votes(counts)(c));
        lemma_count_none(counts.len(), has_votes(counts));
    }
    let mut found = false;
    let mut weakest: usize = 0;
    for c in 0..tally.len()
        invariant
            counts == as_counts(tally@),
            found == (count_below(c as nat, has_votes(counts)) > 0),
            found ==> is_weakest_below(counts, weakest as int, c as int),
    {
        proof {
            assert(counts[c as int] == tally@[c as int]);
            if found {
                assert(counts[weakest as int] == tally@[weakest as int]);
            } else {
                lemma_count_none(c as nat, has_votes(counts));
                assert forall|d: int| 0 <= d < c implies !(#[trigger] counts[d] > 0) by {
                    assert(!has_votes(counts)(d));
                }
            }
        }
        if tally[c] > 0 && (!found || tally[c] <= tally[weakest]) {
            weakest = c;
            found = true;
        }
    }
    Candidate::from(weakest)
}

/// Removes the candidate from the ballots.
pub fn remove_candidate(ballots: &mut Vec<Ballot>, candidate: Candidate)
    ensures
        final(ballots).deep_view() == eliminate(old(ballots).deep_view(), candidate@ as int),
{
    let ghost before = ballots.deep_view();
    let ghost out = candidate@ as int;
    let count = ballots.len();
    for k in 0..count
        invariant
            count == before.len(),
            ballots.len() == count,
            out == candidate@,
            forall|a: int| 0 <= a < k ==> (#[trigger] ballots@[a]).deep_view() == without(before[a], out),
            forall|a: int| k <= a < count ==> (#[trigger] ballots@[a]).deep_view() == before[a],
    {
        let ghost entries = before[k as int];
        let mut kept: Ballot = Vec::new();
        let len = ballots[k].len();
        assert(kept.deep_view() =~= without(entries.take(0), out));
        for i in 0..len
            invariant
                k < ballots.len(),
                len == ballots@[k as int].len(),
                entries == ballots@[k as int].deep_view(),
                out == candidate@,
                kept.deep_view() == without(entries.take(i as int), out),
        {
            let entry = ballots[k][i];
            assert(entries[i as int] == (entry.0@, entry.1));
            assert(entries.take(i + 1).drop_last() =~= entries.take(i as int));
            let ghost kept_before = kept.deep_view();
            if entry.0.id() != candidate.id() {
                kept.push(entry);
                assert(kept.deep_view() =~= kept_before.push(entries[i as int]));
            }
        }
        assert(entries.take(len as int) =~= entries);
        ballots[k] = kept;
    }
    assert(ballots.deep_view() =~= eliminate(before, out));
}

/// Where some ballot names a candidate, the winner by instant runoff is a
/// candidate whom some ballot names.
pub proof fn lemma_irv_winner_is_named(ballots: Seq<Seq<(nat, Rank)>>)
    requires
        names_a_candidate(ballots),
    ensures
        is_named(ballots, irv_winner(ballots)),
    decreases total_entries(ballots),
{
    lemma_some_leader(ballots);
    lemma_weakest_exists(ballots);
    let out = weakest(ballots);
    if leader_count(first_choice_counts(ballots)) <= 1 {
        assert(first_choice_counts(ballots)[out] > 0);
        let at = lemma_leader_is_named(ballots, out);
        assert(ballots[at.0][at.1].0 == out);
    } else {
        let left = eliminate(ballots, out);
        lemma_strike_weakest_shrinks(ballots);
        lemma_strike_weakest_leaves_some(ballots);
        lemma_irv_winner_is_named(left);
        let winner = irv_winner(left);
        let (k, j) = choose|k: int, j: int|
            0 <= k < left.len() && 0 <= j < left[k].len() && (#[trigger] left[k][j]).0 == winner;
        let i = lemma_without_was_there(ballots[k], out, j);
        assert(ballots[k][i].0 == winner);
    }
}

/// A candidate who is the first choice of more ballots than all other
/// candidates together wins the instant runoff.
pub proof fn lemma_majority_wins(ballots: Seq<Seq<(nat, Rank)>>, c: int)
    requires
        has_majority(ballots, c),
    ensures
        irv_winner(ballots) == c,
    decreases total_entries(ballots),
{
    let counts = first_choice_counts(ballots);
    let at = lemma_leader_is_named(ballots, c);
    lemma_highest_handle_bounds(ballots, at.0, at.1);
    assert(has_votes(counts)(c));
    lemma_count_none(counts.len(), has_votes(counts));
    lemma_weakest_exists(ballots);
    let out = weakest(ballots);
    if leader_count(counts) <= 1 {
        if out != c {
            lemma_count_two(counts.len(), has_votes(counts), out, c);
        }
    } else {
        // Another candidate with a first choice has fewer than `c`, and the
        // weakest has no more than that one.
        if forall|d: int| 0 <= d < counts.len() && d != c ==> !#[trigger] has_votes(counts)(d) {
            lemma_count_single(counts.len(), has_votes(counts), c);
        }
        let d = choose|d: int| 0 <= d < counts.len() && d != c && #[trigger] has_votes(counts)(d);
        assert forall|k: int|
            0 <= k < ballots.len() && #[trigger] first_choice_at(ballots, d)(k) implies other_first_choice_at(
            ballots,
            c,
        )(k) by {
            if is_first_choice(ballots[k], c) {
                lemma_first_choice_unique(ballots[k], c, d);
            }
        }
        lemma_count_monotone(
            ballots.len(),
            first_choice_at(ballots, d),
            other_first_choice_at(ballots, c),
        );
        assert(counts[d] > 0);
        assert(counts[out] <= counts[d]);
        assert(out != c);

        // Striking the weakest takes no first choice from `c` and gives
        // none to the others.
        let left = eliminate(ballots, out);
        assert forall|k: int|
            0 <= k < ballots.len() && #[trigger] first_choice_at(ballots, c)(k) implies first_choice_at(
            left,
            c,
        )(k) by {
            lemma_first_choice_survives(ballots[k], c, out);
        }
        lemma_count_monotone(ballots.len(), first_choice_at(ballots, c), first_choice_at(left, c));
        assert forall|k: int|
            0 <= k < ballots.len() && #[trigger] other_first_choice_at(left, c)(k) implies other_first_choice_at(
            ballots,
            c,
        )(k) by {
            lemma_without_shrinks(ballots[k], out);
            if is_first_choice(ballots[k], c) {
                lemma_first_choice_survives(ballots[k], c, out);
            }
        }
        lemma_count_monotone(
            ballots.len(),
            other_first_choice_at(left, c),
            other_first_choice_at(ballots, c),
        );
        lemma_strike_weakest_shrinks(ballots);
        lemma_majority_wins(left, c);
    }
}

/// The first choice of a ballot stays its first choice when another
/// candidate is struck.
pub proof fn lemma_first_choice_survives(ballot: Seq<(nat, Rank)>, c: int, out: int)
    requires
        is_first_choice(ballot, c),
        c != out,
    ensures
        is_first_choice(without(ballot, out), c),
{
    let left = without(ballot, out);
    let i = choose|i: int| 0 <= i < ballot.len() && (#[trigger] ballot[i]).0 == c && leads(ballot, i);
    let j = lemma_without_keeps(ballot, out, i);
    assert forall|other: int| 0 <= other < left.len() implies chosen_before(
        left[j],
        #[trigger] left[other],
    ) by {
        let was = lemma_without_was_there(ballot, out, other);
        assert(chosen_before(ballot[i], ballot[was]));
    }
    assert(left[j].0 == c && leads(left, j));
}

/// The ballots of an election determine its winner by instant runoff: the
/// same ballots give the same winner.
pub proof fn lemma_irv_winner_is_determined(
    ballots: Seq<Seq<(nat, Rank)>>,
    again: Seq<Seq<(nat, Rank)>>,
)
    requires
        ballots =~~= again,
    ensures
        irv_winner(ballots) == irv_winner(again),
{
}

/// A ballot has at most one first choice.
pub proof fn lemma_first_choice_unique(ballot: Seq<(nat, Rank)>, c: int, d: int)
    requires
        is_first_choice(ballot, c),
        is_first_choice(ballot, d),
    ensures
        c == d,
{
    let i = choose|i: int| 0 <= i < ballot.len() && (#[trigger] ballot[i]).0 == c && leads(ballot, i);
    let j = choose|j: int| 0 <= j < ballot.len() && (#[trigger] ballot[j]).0 == d && leads(ballot, j);
    assert(chosen_before(ballot[i], ballot[j]));
    assert(chosen_before(ballot[j], ballot[i]));
}

/// A ballot with an entry has a first choice, who is on the ballot.
pub proof fn lemma_first_choice_exists(ballot: Seq<(nat, Rank)>) -> (i: int)
    requires
        ballot.len() > 0,
    ensures
        0 <= i < ballot.len(),
        leads(ballot, i),
        is_first_choice(ballot, ballot[i].0 as int),
    decreases ballot.len(),
{
    let last = ballot.len() - 1;
    if ballot.len() == 1 {
        assert(leads(ballot, 0));
        0
    } else {
        let rest = ballot.drop_last();
        let before = lemma_first_choice_exists(rest);
        let i = if chosen_before(ballot[before], ballot[last]) {
            before
        } else {
            last
        };
        assert forall|j: int| 0 <= j < ballot.len() implies chosen_before(
            ballot[i],
            #[trigger] ballot[j],
        ) by {
            if j < last {
                assert(chosen_before(rest[before], rest[j]));
            }
        }
        i
    }
}

/// Only one candidate is the weakest.
pub proof fn lemma_weakest_unique(counts: Seq<nat>, c: int, d: int)
    requires
        is_weakest(counts, c),
        is_weakest(counts, d),
    ensures
        c == d,
{
}

/// Where some candidate has a first choice, `weakest` is the weakest.
pub proof fn lemma_weakest_exists(ballots: Seq<Seq<(nat, Rank)>>)
    requires
        leader_count(first_choice_counts(ballots)) > 0,
    ensures
        is_weakest(first_choice_counts(ballots), weakest(ballots)),
{
    let counts = first_choice_counts(ballots);
    let c = lemma_weakest_below_exists(counts, counts.len() as int);
    assert(is_weakest(counts, c));
}

/// Among the first `bound` candidates, where one has a first choice, one is
/// the weakest.
proof fn lemma_weakest_below_exists(counts: Seq<nat>, bound: int) -> (c: int)
    requires
        0 <= bound <= counts.len(),
        count_below(bound as nat, has_votes(counts)) > 0,
    ensures
        is_weakest_below(counts, c, bound),
    decreases bound,
{
    let last = bound - 1;
    if count_below(last as nat, has_votes(counts)) > 0 {
        let before = lemma_weakest_below_exists(counts, last);
        if counts[last] > 0 && counts[last] <= counts[before] {
            last
        } else {
            before
        }
    } else {
        lemma_count_none(last as nat, has_votes(counts));
        assert forall|d: int| 0 <= d < last implies !(#[trigger] counts[d] > 0) by {
            assert(!has_votes(counts)(d));
        }
        last
    }
}

/// Striking a candidate never lengthens a ballot, and shortens one that
/// names the candidate.
pub proof fn lemma_without_shrinks(ballot: Seq<(nat, Rank)>, c: int)
    ensures
        without(ballot, c).len() <= ballot.len(),
        (exists|i: int| 0 <= i < ballot.len() && (#[trigger] ballot[i]).0 == c) ==> without(
            ballot,
            c,
        ).len() < ballot.len(),
    decreases ballot.len(),
{
    if ballot.len() > 0 {
        let rest = ballot.drop_last();
        lemma_without_shrinks(rest, c);
        if exists|i: int| 0 <= i < ballot.len() && (#[trigger] ballot[i]).0 == c {
            let i = choose|i: int| 0 <= i < ballot.len() && (#[trigger] ballot[i]).0 == c;
            if ballot.last().0 != c {
                assert(rest[i].0 == c);
            }
        }
    }
}

/// Striking a candidate whom the ballot at place `at` names leaves fewer
/// entries in all.
proof fn lemma_eliminate_shrinks(ballots: Seq<Seq<(nat, Rank)>>, c: int, at: int)
    requires
        0 <= at < ballots.len(),
        exists|i: int| 0 <= i < ballots[at].len() && (#[trigger] ballots[at][i]).0 == c,
    ensures
        total_entries(eliminate(ballots, c)) < total_entries(ballots),
    decreases ballots.len(),
{
    let rest = ballots.drop_last();
    assert(eliminate(ballots, c).drop_last() =~= eliminate(rest, c));
    lemma_without_shrinks(ballots.last(), c);
    if at == ballots.len() - 1 {
        lemma_eliminate_never_grows(rest, c);
    } else {
        assert(rest[at] == ballots[at]);
        lemma_eliminate_shrinks(rest, c, at);
    }
}

/// Striking a candidate never leaves more entries in all.
proof fn lemma_eliminate_never_grows(ballots: Seq<Seq<(nat, Rank)>>, c: int)
    ensures
        total_entries(eliminate(ballots, c)) <= total_entries(ballots),
    decreases ballots.len(),
{
    if ballots.len() > 0 {
        let rest = ballots.drop_last();
        assert(eliminate(ballots, c).drop_last() =~= eliminate(rest, c));
        lemma_without_shrinks(ballots.last(), c);
        lemma_eliminate_never_grows(rest, c);
    }
}

/// A candidate with a first choice is on some ballot.
pub proof fn lemma_leader_is_named(ballots: Seq<Seq<(nat, Rank)>>, c: int) -> (at: (int, int))
    requires
        first_choice_count(ballots, c) > 0,
    ensures
        0 <= at.0 < ballots.len(),
        0 <= at.1 < ballots[at.0].len(),
        ballots[at.0][at.1].0 == c,
        is_first_choice(ballots[at.0], c),
{
    lemma_count_none(ballots.len(), first_choice_at(ballots, c));
    let k = choose|k: int| 0 <= k < ballots.len() && #[trigger] first_choice_at(ballots, c)(k);
    let i = choose|i: int|
        0 <= i < ballots[k].len() && (#[trigger] ballots[k][i]).0 == c && leads(ballots[k], i);
    (k, i)
}

/// Where a candidate has a first choice, striking the weakest leaves fewer
/// entries in all.
pub proof fn lemma_strike_weakest_shrinks(ballots: Seq<Seq<(nat, Rank)>>)
    requires
        leader_count(first_choice_counts(ballots)) > 0,
    ensures
        total_entries(eliminate(ballots, weakest(ballots))) < total_entries(ballots),
{
    lemma_weakest_exists(ballots);
    let out = weakest(ballots);
    assert(first_choice_counts(ballots)[out] > 0);
    let at = lemma_leader_is_named(ballots, out);
    assert(ballots[at.0][at.1].0 == out);
    lemma_eliminate_shrinks(ballots, out, at.0);
}

/// Where some ballot has an entry, some candidate has a first choice.
pub proof fn lemma_some_leader(ballots: Seq<Seq<(nat, Rank)>>)
    requires
        names_a_candidate(ballots),
    ensures
        leader_count(first_choice_counts(ballots)) > 0,
{
    let k = choose|k: int| 0 <= k < ballots.len() && (#[trigger] ballots[k]).len() > 0;
    let i = lemma_first_choice_exists(ballots[k]);
    let c = ballots[k][i].0 as int;
    lemma_highest_handle_bounds(ballots, k, i);
    let counts = first_choice_counts(ballots);
    assert(first_choice_at(ballots, c)(k));
    lemma_count_none(ballots.len(), first_choice_at(ballots, c));
    assert(has_votes(counts)(c));
    lemma_count_none(counts.len(), has_votes(counts));
}

/// An entry of another candidate than the one struck stays on the ballot.
pub proof fn lemma_without_keeps(ballot: Seq<(nat, Rank)>, c: int, i: int) -> (j: int)
    requires
        0 <= i < ballot.len(),
        ballot[i].0 != c,
    ensures
        0 <= j < without(ballot, c).len(),
        without(ballot, c)[j] == ballot[i],
    decreases ballot.len(),
{
    if i == ballot.len() - 1 {
        without(ballot, c).len() - 1
    } else {
        lemma_without_keeps(ballot.drop_last(), c, i)
    }
}

/// What is left of a ballot was on it, and is no entry of the candidate
/// struck.
pub proof fn lemma_without_was_there(ballot: Seq<(nat, Rank)>, c: int, j: int) -> (i: int)
    requires
        0 <= j < without(ballot, c).len(),
    ensures
        0 <= i < ballot.len(),
        without(ballot, c)[j] == ballot[i],
        ballot[i].0 != c,
    decreases ballot.len(),
{
    let rest = ballot.drop_last();
    if ballot.last().0 != c && j == without(ballot, c).len() - 1 {
        ballot.len() - 1
    } else {
        lemma_without_was_there(rest, c, j)
    }
}

/// Striking a candidate does not raise the highest handle.
pub proof fn lemma_eliminate_highest_handle(ballots: Seq<Seq<(nat, Rank)>>, c: int)
    ensures
        highest_handle(eliminate(ballots, c)) <= highest_handle(ballots),
{
    let left = eliminate(ballots, c);
    if names_a_candidate(left) {
        let at = lemma_highest_handle_attained(left);
        let i = lemma_without_was_there(ballots[at.0], c, at.1);
        lemma_highest_handle_bounds(ballots, at.0, i);
    } else {
        lemma_highest_handle_empty(left);
    }
}

/// Where two candidates or more have a first choice, the ballots still name
/// a candidate once the weakest is struck.
pub proof fn lemma_strike_weakest_leaves_some(ballots: Seq<Seq<(nat, Rank)>>)
    requires
        leader_count(first_choice_counts(ballots)) > 1,
    ensures
        names_a_candidate(eliminate(ballots, weakest(ballots))),
{
    let counts = first_choice_counts(ballots);
    let out = weakest(ballots);
    if forall|d: int| 0 <= d < counts.len() && d != out ==> !#[trigger] has_votes(counts)(d) {
        lemma_count_single(counts.len(), has_votes(counts), out);
    }
    let d = choose|d: int| 0 <= d < counts.len() && d != out && #[trigger] has_votes(counts)(d);
    let at = lemma_leader_is_named(ballots, d);
    let j = lemma_without_keeps(ballots[at.0], out, at.1);
    assert(eliminate(ballots, out)[at.0].len() > 0);
}

} // verus!
