//! Checks that are made in order, up to the first refusal.

use vstd::prelude::*;

verus! {

/// The first refusal among the first `n` checks.
pub open spec fn run<E>(check: spec_fn(int) -> Result<(), E>, n: int) -> Result<(), E>
    decreases n,
{
    if n <= 0 {
        Ok(())
    } else {
        match run(check, n - 1) {
            Err(e) => Err(e),
            Ok(()) => check(n - 1),
        }
    }
}

/// A refusal stays the first one.
pub proof fn lemma_run_err<E>(check: spec_fn(int) -> Result<(), E>, i: int, n: int)
    requires
        0 <= i <= n,
        run(check, i) is Err,
    ensures
        run(check, n) == run(check, i),
    decreases n - i,
{
    if i < n {
        lemma_run_err(check, i, n - 1);
    }
}

} // verus!
