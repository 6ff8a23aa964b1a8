//! Counting the indices below a bound at which a predicate holds.

use vstd::prelude::*;

verus! {

/// How many `i` with `0 <= i < n` have `holds(i)`.
pub open spec fn count_below(n: nat, holds: spec_fn(int) -> bool) -> nat
    decreases n,
{
    if n == 0 {
        0
    } else {
        count_below((n - 1) as nat, holds) + if holds(n - 1) {
            1nat
        } else {
            0nat
        }
    }
}

/// At most `n` indices below `n` are counted.
pub proof fn lemma_count_bounded(n: nat, holds: spec_fn(int) -> bool)
    ensures
        count_below(n, holds) <= n,
    decreases n,
{
    if n > 0 {
        lemma_count_bounded((n - 1) as nat, holds);
    }
}

/// Counting up to a higher bound never gives less.
pub proof fn lemma_count_grows(n: nat, m: nat, holds: spec_fn(int) -> bool)
    requires
        n <= m,
    ensures
        count_below(n, holds) <= count_below(m, holds),
    decreases m,
{
    if n < m {
        lemma_count_grows(n, (m - 1) as nat, holds);
    }
}

/// A predicate that implies another below `n` has at most its count.
pub proof fn lemma_count_monotone(n: nat, f: spec_fn(int) -> bool, g: spec_fn(int) -> bool)
    requires
        forall|i: int| 0 <= i < n && #[trigger] f(i) ==> g(i),
    ensures
        count_below(n, f) <= count_below(n, g),
    decreases n,
{
    if n > 0 {
        lemma_count_monotone((n - 1) as nat, f, g);
    }
}

/// A predicate that implies another below `n`, and fails at an index where
/// the other holds, has a smaller count.
pub proof fn lemma_count_strictly_monotone(
    n: nat,
    f: spec_fn(int) -> bool,
    g: spec_fn(int) -> bool,
    at: int,
)
    requires
        forall|i: int| 0 <= i < n && #[trigger] f(i) ==> g(i),
        0 <= at < n,
        g(at),
        !f(at),
    ensures
        count_below(n, f) < count_below(n, g),
    decreases n,
{
    if at == n - 1 {
        lemma_count_monotone((n - 1) as nat, f, g);
    } else {
        lemma_count_strictly_monotone((n - 1) as nat, f, g, at);
    }
}

/// The count is `n` exactly when the predicate holds everywhere below `n`.
pub proof fn lemma_count_full(n: nat, holds: spec_fn(int) -> bool)
    ensures
        count_below(n, holds) == n <==> (forall|i: int| 0 <= i < n ==> #[trigger] holds(i)),
    decreases n,
{
    if n > 0 {
        let before = (n - 1) as nat;
        lemma_count_full(before, holds);
        lemma_count_bounded(before, holds);
        if count_below(n, holds) == n {
            assert forall|i: int| 0 <= i < n implies #[trigger] holds(i) by {
                if i < before {
                }
            }
        }
    }
}

/// The count is zero exactly when the predicate holds nowhere below `n`.
pub proof fn lemma_count_none(n: nat, holds: spec_fn(int) -> bool)
    ensures
        count_below(n, holds) == 0 <==> (forall|i: int| 0 <= i < n ==> !#[trigger] holds(i)),
    decreases n,
{
    if n > 0 {
        lemma_count_none((n - 1) as nat, holds);
    }
}

/// A predicate that holds at no index below `n` but perhaps `at` is
/// counted at most once.
pub proof fn lemma_count_single(n: nat, holds: spec_fn(int) -> bool, at: int)
    requires
        forall|i: int| 0 <= i < n && i != at ==> !#[trigger] holds(i),
    ensures
        count_below(n, holds) <= 1,
        count_below(n, holds) == 1 ==> 0 <= at < n && holds(at),
    decreases n,
{
    if n > 0 {
        let before = (n - 1) as nat;
        lemma_count_single(before, holds, at);
        if at == n - 1 {
            lemma_count_none(before, holds);
        }
    }
}

/// A predicate that fails at `at` is counted at most `n - 1` times below
/// `n`, and exactly so often when it holds everywhere else.
pub proof fn lemma_count_all_but_one(n: nat, holds: spec_fn(int) -> bool, at: int)
    requires
        0 <= at < n,
        !holds(at),
    ensures
        count_below(n, holds) <= n - 1,
        count_below(n, holds) == n - 1 <==> (forall|i: int|
            0 <= i < n && i != at ==> #[trigger] holds(i)),
    decreases n,
{
    let before = (n - 1) as nat;
    if at == n - 1 {
        lemma_count_full(before, holds);
        lemma_count_bounded(before, holds);
    } else {
        lemma_count_all_but_one(before, holds, at);
        if count_below(n, holds) == n - 1 {
            assert forall|i: int| 0 <= i < n && i != at implies #[trigger] holds(i) by {
                if i < before {
                }
            }
        }
    }
}

/// A predicate that holds at two indices below `n` is counted at least
/// twice.
pub proof fn lemma_count_two(n: nat, holds: spec_fn(int) -> bool, a: int, b: int)
    requires
        0 <= a < n,
        0 <= b < n,
        a != b,
        holds(a),
        holds(b),
    ensures
        count_below(n, holds) >= 2,
    decreases n,
{
    let before = (n - 1) as nat;
    if a == n - 1 || b == n - 1 {
        lemma_count_none(before, holds);
    } else {
        lemma_count_two(before, holds, a, b);
    }
}

} // verus!
