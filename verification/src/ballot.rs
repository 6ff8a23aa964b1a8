//! What a ballot and a set of ballots are, and the checks made on them
//! before any count.
//!
//! The contracts of this crate speak of a ballot as a sequence of pairs of
//! a candidate's handle and a rank, and of an election as a sequence of
//! ballots.

use vstd::prelude::*;
use crate::{BallotSlice, Ballot, Rank};

verus! {

/// No candidate is on `ballot` twice.
pub open spec fn has_unique_candidates(ballot: Seq<(nat, Rank)>) -> bool {
    forall|i: int, j: int|
        0 <= i < j < ballot.len() ==> (#[trigger] ballot[i]).0 != (#[trigger] ballot[j]).0
}

/// No ballot of `ballots` names a candidate twice.
pub open spec fn all_unique_candidates(ballots: Seq<Seq<(nat, Rank)>>) -> bool {
    forall|k: int| 0 <= k < ballots.len() ==> has_unique_candidates(#[trigger] ballots[k])
}

/// The highest handle on `ballot`, or zero for a ballot without entries.
pub open spec fn highest_on_ballot(ballot: Seq<(nat, Rank)>) -> nat
    decreases ballot.len(),
{
    if ballot.len() == 0 {
        0
    } else {
        let before = highest_on_ballot(ballot.drop_last());
        if before >= ballot.last().0 {
            before
        } else {
            ballot.last().0
        }
    }
}

/// The highest handle on any of `ballots`, or zero where no ballot has an
/// entry.
pub open spec fn highest_handle(ballots: Seq<Seq<(nat, Rank)>>) -> nat
    decreases ballots.len(),
{
    if ballots.len() == 0 {
        0
    } else {
        let before = highest_handle(ballots.drop_last());
        let here = highest_on_ballot(ballots.last());
        if before >= here {
            before
        } else {
            here
        }
    }
}

/// How many candidates an election has: handles are dense from zero, so one
/// more than the highest handle on any ballot.
pub open spec fn num_candidates(ballots: Seq<Seq<(nat, Rank)>>) -> nat {
    highest_handle(ballots) + 1
}

/// Every handle on the ballots is below the largest `usize`, so that the
/// number of candidates is a `usize` too.
pub open spec fn handles_fit(ballots: Seq<Seq<(nat, Rank)>>) -> bool {
    forall|k: int, i: int|
        0 <= k < ballots.len() && 0 <= i < ballots[k].len() ==> (#[trigger] ballots[k][i]).0
            < usize::MAX
}

/// Every handle on `ballot` is at most `highest_on_ballot(ballot)`.
pub proof fn lemma_highest_on_ballot_bounds(ballot: Seq<(nat, Rank)>, i: int)
    requires
        0 <= i < ballot.len(),
    ensures
        ballot[i].0 <= highest_on_ballot(ballot),
    decreases ballot.len(),
{
    if i < ballot.len() - 1 {
        lemma_highest_on_ballot_bounds(ballot.drop_last(), i);
    }
}

/// On a ballot with an entry, `highest_on_ballot` is the handle of one.
pub proof fn lemma_highest_on_ballot_attained(ballot: Seq<(nat, Rank)>) -> (i: int)
    requires
        ballot.len() > 0,
    ensures
        0 <= i < ballot.len(),
        ballot[i].0 == highest_on_ballot(ballot),
    decreases ballot.len(),
{
    if ballot.len() == 1 {
        assert(highest_on_ballot(ballot.drop_last()) == 0);
        0
    } else if highest_on_ballot(ballot.drop_last()) >= ballot.last().0 {
        lemma_highest_on_ballot_attained(ballot.drop_last())
    } else {
        ballot.len() - 1
    }
}

/// Every handle on every ballot is at most `highest_handle(ballots)`.
pub proof fn lemma_highest_handle_bounds(ballots: Seq<Seq<(nat, Rank)>>, k: int, i: int)
    requires
        0 <= k < ballots.len(),
        0 <= i < ballots[k].len(),
    ensures
        ballots[k][i].0 <= highest_handle(ballots),
        ballots[k][i].0 < num_candidates(ballots),
    decreases ballots.len(),
{
    if k < ballots.len() - 1 {
        lemma_highest_handle_bounds(ballots.drop_last(), k, i);
    } else {
        lemma_highest_on_ballot_bounds(ballots[k], i);
    }
}

/// Where some ballot has an entry, `highest_handle` is the handle of one.
pub proof fn lemma_highest_handle_attained(ballots: Seq<Seq<(nat, Rank)>>) -> (at: (int, int))
    requires
        exists|k: int| 0 <= k < ballots.len() && (#[trigger] ballots[k]).len() > 0,
    ensures
        0 <= at.0 < ballots.len(),
        0 <= at.1 < ballots[at.0].len(),
        ballots[at.0][at.1].0 == highest_handle(ballots),
    decreases ballots.len(),
{
    let rest = ballots.drop_last();
    let last = ballots.len() - 1;
    if exists|k: int| 0 <= k < rest.len() && (#[trigger] rest[k]).len() > 0 {
        let at = lemma_highest_handle_attained(rest);
        if highest_handle(rest) >= highest_on_ballot(ballots.last()) {
            at
        } else {
            (last, lemma_highest_on_ballot_attained(ballots.last()))
        }
    } else {
        let k = choose|k: int| 0 <= k < ballots.len() && (#[trigger] ballots[k]).len() > 0;
        assert(k == last) by {
            if k < last {
                assert(rest[k].len() > 0);
            }
        }
        lemma_highest_handle_empty(rest);
        (last, lemma_highest_on_ballot_attained(ballots.last()))
    }
}

/// Ballots without entries have zero as their highest handle.
pub proof fn lemma_highest_handle_empty(ballots: Seq<Seq<(nat, Rank)>>)
    requires
        forall|k: int| 0 <= k < ballots.len() ==> (#[trigger] ballots[k]).len() == 0,
    ensures
        highest_handle(ballots) == 0,
    decreases ballots.len(),
{
    if ballots.len() > 0 {
        assert(ballots.last().len() == 0);
        lemma_highest_handle_empty(ballots.drop_last());
    }
}

/// The handles fit exactly when the highest of them is below the largest
/// `usize`.
pub proof fn lemma_handles_fit(ballots: Seq<Seq<(nat, Rank)>>)
    ensures
        handles_fit(ballots) <==> highest_handle(ballots) < usize::MAX,
{
    if handles_fit(ballots) {
        if exists|k: int| 0 <= k < ballots.len() && (#[trigger] ballots[k]).len() > 0 {
            let at = lemma_highest_handle_attained(ballots);
            assert(ballots[at.0][at.1].0 < usize::MAX);
        } else {
            lemma_highest_handle_empty(ballots);
        }
    }
    if highest_handle(ballots) < usize::MAX {
        assert forall|k: int, i: int|
            0 <= k < ballots.len() && 0 <= i < ballots[k].len() implies (
        #[trigger] ballots[k][i]).0 < usize::MAX by {
            lemma_highest_handle_bounds(ballots, k, i);
        }
    }
}

/// The highest candidate handle on any ballot; zero where there is none.
pub fn highest_id(votes: &[Ballot]) -> (highest: usize)
    ensures
        highest == highest_handle(votes.deep_view()),
        forall|k: int, i: int|
            0 <= k < votes.len() && 0 <= i < votes.deep_view()[k].len() ==> (
            #[trigger] votes.deep_view()[k][i]).0 <= highest,
        highest == 0 || exists|k: int, i: int|
            0 <= k < votes.len() && 0 <= i < votes.deep_view()[k].len() && (
            #[trigger] votes.deep_view()[k][i]).0 == highest,
{
    let ghost ballots = votes.deep_view();
    let mut num_candidates: usize = 0;
    for k in 0..votes.len()
        invariant
            ballots == votes.deep_view(),
            num_candidates == highest_handle(ballots.take(k as int)),
    {
        let ballot = &votes[k];
        let ghost entries = ballots[k as int];
        let ghost before = num_candidates;
        assert(entries == ballot.deep_view());
        for i in 0..ballot.len()
            invariant
                entries == ballot.deep_view(),
                num_candidates == (if before >= highest_on_ballot(entries.take(i as int)) {
                    before as nat
                } else {
                    highest_on_ballot(entries.take(i as int))
                }),
        {
            let (candidate, _) = ballot[i];
            assert(entries.take(i + 1).drop_last() =~= entries.take(i as int));
            assert(entries.take(i + 1).last().0 == candidate@);
            if candidate.id() > num_candidates {
                num_candidates = candidate.id();
            }
        }
        assert(entries.take(ballot.len() as int) =~= entries);
        assert(ballots.take(k + 1).drop_last() =~= ballots.take(k as int));
        assert(ballots.take(k + 1).last() == entries);
    }
    assert(ballots.take(votes.len() as int) =~= ballots);
    proof {
        assert forall|k: int, i: int|
            0 <= k < ballots.len() && 0 <= i < ballots[k].len() implies (
        #[trigger] ballots[k][i]).0 <= num_candidates by {
            lemma_highest_handle_bounds(ballots, k, i);
        }
        if exists|k: int| 0 <= k < ballots.len() && (#[trigger] ballots[k]).len() > 0 {
            let at = lemma_highest_handle_attained(ballots);
            assert(ballots[at.0][at.1].0 == num_candidates);
        } else {
            lemma_highest_handle_empty(ballots);
        }
    }
    num_candidates
}

/// `s` is in ascending order.
pub open spec fn is_ascending(s: Seq<usize>) -> bool {
    forall|i: int, j: int| 0 <= i <= j < s.len() ==> s[i] <= s[j]
}

/// Merges two ascending vectors into one ascending vector.
fn merge_ascending(left: &Vec<usize>, right: &Vec<usize>) -> (merged: Vec<usize>)
    requires
        is_ascending(left@),
        is_ascending(right@),
    ensures
        is_ascending(merged@),
        merged@.to_multiset() == (left@ + right@).to_multiset(),
{
    let mut merged: Vec<usize> = Vec::new();
    let mut i: usize = 0;
    let mut j: usize = 0;
    assert(merged@ =~= left@.take(0) + right@.take(0));
    while i < left.len() || j < right.len()
        invariant
            is_ascending(left@),
            is_ascending(right@),
            i <= left.len(),
            j <= right.len(),
            is_ascending(merged@),
            merged@.to_multiset() == (left@.take(i as int) + right@.take(j as int)).to_multiset(),
            forall|a: int|
                0 <= a < merged.len() && i < left.len() ==> #[trigger] merged@[a] <= left@[i as int],
            forall|a: int|
                0 <= a < merged.len() && j < right.len() ==> #[trigger] merged@[a] <= right@[j as int],
        decreases left.len() - i + right.len() - j,
    {
        let ghost taken = left@.take(i as int) + right@.take(j as int);
        if j >= right.len() || (i < left.len() && left[i] <= right[j]) {
            proof {
                vstd::seq_lib::to_multiset_build(merged@, left@[i as int]);
                vstd::seq_lib::to_multiset_insert(taken, i as int, left@[i as int]);
                assert(taken.insert(i as int, left@[i as int]) =~= left@.take(i + 1) + right@.take(
                    j as int,
                ));
            }
            merged.push(left[i]);
            i += 1;
        } else {
            proof {
                vstd::seq_lib::to_multiset_build(merged@, right@[j as int]);
                vstd::seq_lib::to_multiset_build(taken, right@[j as int]);
                assert(taken.push(right@[j as int]) =~= left@.take(i as int) + right@.take(j + 1));
            }
            merged.push(right[j]);
            j += 1;
        }
    }
    assert(left@.take(i as int) =~= left@);
    assert(right@.take(j as int) =~= right@);
    merged
}

/// The values of `values[from..to]` in ascending order, by merge sort.
fn sort_range(values: &Vec<usize>, from: usize, to: usize) -> (sorted: Vec<usize>)
    requires
        from <= to <= values.len(),
    ensures
        is_ascending(sorted@),
        sorted@.to_multiset() == values@.subrange(from as int, to as int).to_multiset(),
    decreases to - from,
{
    let ghost range = values@.subrange(from as int, to as int);
    if to - from == 0 {
        assert(range =~= Seq::empty());
        Vec::new()
    } else if to - from == 1 {
        let mut sorted: Vec<usize> = Vec::new();
        sorted.push(values[from]);
        assert(range =~= sorted@);
        sorted
    } else {
        let middle = from + (to - from) / 2;
        let left = sort_range(values, from, middle);
        let right = sort_range(values, middle, to);
        proof {
            let low = values@.subrange(from as int, middle as int);
            let high = values@.subrange(middle as int, to as int);
            assert(range =~= low + high);
            vstd::seq_lib::lemma_multiset_commutative(low, high);
            vstd::seq_lib::lemma_multiset_commutative(left@, right@);
        }
        merge_ascending(&left, &right)
    }
}

/// The values of `values` in ascending order.
pub fn sort_ascending(values: &Vec<usize>) -> (sorted: Vec<usize>)
    ensures
        is_ascending(sorted@),
        sorted@.to_multiset() == values@.to_multiset(),
        sorted.len() == values.len(),
{
    assert(values@.subrange(0, values.len() as int) =~= values@);
    let sorted = sort_range(values, 0, values.len());
    proof {
        vstd::seq_lib::to_multiset_len(sorted@);
        vstd::seq_lib::to_multiset_len(values@);
    }
    sorted
}

/// Whether no candidate is on the ballot twice.
///
/// The ranks play no part: a ballot may give several candidates one rank.
pub fn unique_candidates(ballot: &BallotSlice) -> (unique: bool)
    ensures
        unique == has_unique_candidates(ballot.deep_view()),
{
    let ghost entries = ballot.deep_view();
    let mut candidates: Vec<usize> = Vec::new();
    for i in 0..ballot.len()
        invariant
            entries == ballot.deep_view(),
            candidates.len() == i,
            forall|a: int| 0 <= a < i ==> #[trigger] candidates@[a] == entries[a].0,
    {
        let (candidate, _) = ballot[i];
        candidates.push(candidate.id());
    }
    assert(candidates@.no_duplicates() == has_unique_candidates(entries)) by {
        if candidates@.no_duplicates() {
            assert forall|i: int, j: int| 0 <= i < j < entries.len() implies (
            #[trigger] entries[i]).0 != (#[trigger] entries[j]).0 by {
                assert(candidates@[i] != candidates@[j]);
            }
        }
        if has_unique_candidates(entries) {
            assert forall|i: int, j: int|
                0 <= i < candidates.len() && 0 <= j < candidates.len() && i != j implies candidates@[i]
                != candidates@[j] by {
                if i < j {
                    assert(entries[i].0 != entries[j].0);
                } else {
                    assert(entries[j].0 != entries[i].0);
                }
            }
        }
    }

    if candidates.is_empty() {
        // A ballot without entries is valid.
        return true;
    }
    // After sorting, duplicates are next to each other.
    let sorted = sort_ascending(&candidates);
    proof {
        if candidates@.no_duplicates() {
            candidates@.lemma_multiset_has_no_duplicates();
            sorted@.lemma_multiset_has_no_duplicates_conv();
        }
        if sorted@.no_duplicates() {
            sorted@.lemma_multiset_has_no_duplicates();
            candidates@.lemma_multiset_has_no_duplicates_conv();
        }
    }
    for i in 1..sorted.len()
        invariant
            entries == ballot.deep_view(),
            is_ascending(sorted@),
            sorted@.no_duplicates() == has_unique_candidates(entries),
            forall|a: int, b: int| 0 <= a < b < i ==> sorted@[a] < sorted@[b],
    {
        if sorted[i - 1] == sorted[i] {
            assert(!sorted@.no_duplicates()) by {
                if sorted@.no_duplicates() {
                    assert(sorted@[i - 1] != sorted@[i as int]);
                }
            }
            return false;
        }
        assert forall|a: int, b: int| 0 <= a < b < i + 1 implies sorted@[a] < sorted@[b] by {
            if b == i {
                assert(sorted@[a] <= sorted@[i - 1]);
            }
        }
    }
    true
}

/// Whether none of the ballots names a candidate twice.
pub fn all_ballots_unique(votes: &[Ballot]) -> (unique: bool)
    ensures
        unique == all_unique_candidates(votes.deep_view()),
{
    let ghost ballots = votes.deep_view();
    for k in 0..votes.len()
        invariant
            ballots == votes.deep_view(),
            forall|a: int| 0 <= a < k ==> has_unique_candidates(#[trigger] ballots[a]),
    {
        let ballot = votes[k].as_slice();
        assert(ballot.deep_view() =~= ballots[k as int]);
        if !unique_candidates(ballot) {
            return false;
        }
    }
    true
}

} // verus!
