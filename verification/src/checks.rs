//! Ordered checks: what the first failing one of a list reports.
use vstd::prelude::*;

verus! {

/// The first report among `f(0) .. f(n - 1)`.
pub open spec fn first_some<E>(n: nat, f: spec_fn(int) -> Option<E>) -> Option<E>
    decreases n,
{
    if n == 0 {
        None
    } else {
        match first_some((n - 1) as nat, f) {
            Some(e) => Some(e),
            None => f(n - 1),
        }
    }
}

/// A report after none means it is the first, however many checks follow.
pub proof fn lemma_first_some_stops<E>(n: nat, m: nat, f: spec_fn(int) -> Option<E>)
    requires
        n <= m,
        first_some(n, f) is Some,
    ensures
        first_some(m, f) == first_some(n, f),
    decreases m,
{
    if n < m {
        lemma_first_some_stops(n, (m - 1) as nat, f);
    }
}

/// No report up to `n` means no report at any earlier position.
pub proof fn lemma_first_some_none<E>(n: nat, f: spec_fn(int) -> Option<E>, i: int)
    requires
        first_some(n, f) is None,
        0 <= i < n,
    ensures
        f(i) is None,
    decreases n,
{
    if i < n - 1 {
        lemma_first_some_none((n - 1) as nat, f, i);
    }
}

/// Without a report there is none.
pub proof fn lemma_first_some_absent<E>(n: nat, f: spec_fn(int) -> Option<E>)
    requires
        forall|i: int| 0 <= i < n ==> (#[trigger] f(i)) is None,
    ensures
        first_some(n, f) is None,
    decreases n,
{
    if n > 0 {
        lemma_first_some_absent((n - 1) as nat, f);
    }
}

/// The first report is the one before which there is none.
pub proof fn lemma_first_some_at<E>(n: nat, f: spec_fn(int) -> Option<E>, k: int, e: E)
    requires
        0 <= k < n,
        forall|i: int| 0 <= i < k ==> (#[trigger] f(i)) is None,
        f(k) == Some(e),
    ensures
        first_some(n, f) == Some(e),
{
    lemma_first_some_absent(k as nat, f);
    assert(first_some((k + 1) as nat, f) == f(k));
    lemma_first_some_stops((k + 1) as nat, n, f);
}

/// A report there is, is that of some position before which there is none.
pub proof fn lemma_first_some_found<E>(n: nat, f: spec_fn(int) -> Option<E>) -> (k: int)
    requires
        first_some(n, f) is Some,
    ensures
        0 <= k < n,
        f(k) == first_some(n, f),
        forall|i: int| 0 <= i < k ==> (#[trigger] f(i)) is None,
    decreases n,
{
    if n > 0 && first_some((n - 1) as nat, f) is Some {
        lemma_first_some_found((n - 1) as nat, f)
    } else {
        assert forall|i: int| 0 <= i < n - 1 implies (#[trigger] f(i)) is None by {
            lemma_first_some_none((n - 1) as nat, f, i);
        }
        n - 1
    }
}

/// The outcome of a list of checks: the first report, or success.
pub open spec fn checked<E>(r: Result<(), E>, report: Option<E>) -> bool {
    match report {
        Some(e) => r == Err::<(), E>(e),
        None => r == Ok::<(), E>(()),
    }
}

/// Step `k` may fail with `e`.
pub open spec fn fails_at<E>(step: spec_fn(int, Result<(), E>) -> bool, k: int, e: E) -> bool {
    step(k, Err(e))
}

/// The outcome of steps taken in turn until one fails, where `step(k, x)` says that step `k` may
/// return `x`.
pub open spec fn in_turn<E>(
    n: nat,
    step: spec_fn(int, Result<(), E>) -> bool,
    r: Result<(), E>,
) -> bool {
    match r {
        Ok(_) => forall|k: int| 0 <= k < n ==> #[trigger] step(k, Ok(())),
        Err(e) => exists|k: int|
            0 <= k < n && #[trigger] fails_at(step, k, e) && forall|j: int|
                0 <= j < k ==> #[trigger] step(j, Ok(())),
    }
}

/// Steps that succeed up to one that fails end in its failure.
pub proof fn lemma_turn_fails<E>(
    n: nat,
    step: spec_fn(int, Result<(), E>) -> bool,
    k: int,
    e: E,
)
    requires
        0 <= k < n,
        step(k, Err(e)),
        forall|j: int| 0 <= j < k ==> #[trigger] step(j, Ok(())),
    ensures
        in_turn(n, step, Err(e)),
{
    let r = Err::<(), E>(e);
    assert(fails_at(step, k, r->Err_0));
    assert(in_turn(n, step, r));
}

/// The first of `n` checks that fails, where `says(k, v)` says that check `k` may return `v`.
pub open spec fn first_failing(
    n: nat,
    says: spec_fn(int, bool) -> bool,
    r: Option<usize>,
) -> bool {
    match r {
        None => forall|k: int| 0 <= k < n ==> #[trigger] says(k, true),
        Some(i) => i < n && says(i as int, false) && forall|k: int|
            0 <= k < i ==> #[trigger] says(k, true),
    }
}

/// The outcome of a stage that is followed by another if it succeeds.
pub open spec fn followed<E>(
    first: spec_fn(Result<(), E>) -> bool,
    second: spec_fn(Result<(), E>) -> bool,
    r: Result<(), E>,
) -> bool {
    match r {
        Ok(_) => first(Ok(())) && second(Ok(())),
        Err(e) => first(Err(e)) || (first(Ok(())) && second(Err(e))),
    }
}

} // verus!
