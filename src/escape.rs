//! The escape-time iteration. The orbit's state and its update (for the
//! Mandelbrot set, `z <- z*z + c` with the test `|z|^2 > 4`) are supplied by
//! the caller as a step function; this module decides when the orbit escapes.

use vstd::prelude::*;

verus! {

/// A step function is deterministic: one state always leads to one outcome.
pub open spec fn deterministic<Z, F: Fn(Z) -> (Z, bool)>(step: F) -> bool {
    forall|z: Z, a: (Z, bool), b: (Z, bool)|
        step.ensures((z,), a) && step.ensures((z,), b) ==> a == b
}

/// The outcome of one step from `z`: the next state, and whether it escaped.
pub open spec fn step_of<Z, F: Fn(Z) -> (Z, bool)>(step: F, z: Z) -> (Z, bool) {
    choose|r: (Z, bool)| step.ensures((z,), r)
}

/// The state after `n` steps from `start`.
pub open spec fn orbit<Z, F: Fn(Z) -> (Z, bool)>(step: F, start: Z, n: nat) -> Z
    decreases n,
{
    if n == 0 {
        start
    } else {
        step_of(step, orbit(step, start, (n - 1) as nat)).0
    }
}

/// Whether the update of iteration `i` (counted from 0) leaves the orbit
/// outside the escape radius.
pub open spec fn escapes_at<Z, F: Fn(Z) -> (Z, bool)>(step: F, start: Z, i: nat) -> bool {
    step_of(step, orbit(step, start, i)).1
}

/// The first iteration below `limit` at which the orbit escapes, or `None`
/// when it stays inside for all `limit` iterations.
pub open spec fn first_escape<Z, F: Fn(Z) -> (Z, bool)>(step: F, start: Z, limit: nat) -> Option<nat>
    decreases limit,
{
    if limit == 0 {
        None
    } else {
        match first_escape(step, start, (limit - 1) as nat) {
            Some(i) => Some(i),
            None => if escapes_at(step, start, (limit - 1) as nat) {
                Some((limit - 1) as nat)
            } else {
                None
            },
        }
    }
}

/// Iterates `step` from `start` at most `limit` times. Returns `Some(i)` when
/// the update of iteration `i` escapes, and `None` when no update within
/// `limit` iterations does (always so for `limit == 0`).
pub fn escape_time<Z, F: Fn(Z) -> (Z, bool)>(start: Z, step: &F, limit: u32) -> (r: Option<u32>)
    requires
        forall|z: Z| step.requires((z,)),
        deterministic(*step),
    ensures
        r matches Some(i) ==> first_escape(*step, start, limit as nat) == Some(i as nat),
        r is None ==> first_escape(*step, start, limit as nat) is None,
{
    let mut z = start;
    let mut i: u32 = 0;
    while i < limit
        invariant
            i <= limit,
            forall|z: Z| step.requires((z,)),
            deterministic(*step),
            z == orbit(*step, start, i as nat),
            first_escape(*step, start, i as nat) is None,
        decreases limit - i,
    {
        let (next, escaped) = step(z);
        proof {
            assert(step.ensures((z,), (next, escaped)));
            let chosen = step_of(*step, z);
            assert(step.ensures((z,), chosen));
            assert(chosen == (next, escaped));
        }
        if escaped {
            proof {
                assert(first_escape(*step, start, (i + 1) as nat) == Some(i as nat));
                lemma_escape_monotonic(*step, start, (i + 1) as nat, limit as nat);
            }
            return Some(i);
        }
        z = next;
        i = i + 1;
    }
    None
}

/// Raising the iteration limit keeps an escape already found, at the same
/// iteration, and can only turn "inconclusive" into "escaped".
pub proof fn lemma_escape_monotonic<Z, F: Fn(Z) -> (Z, bool)>(step: F, start: Z, lo: nat, hi: nat)
    requires
        lo <= hi,
    ensures
        first_escape(step, start, lo) matches Some(i) ==> first_escape(step, start, hi) == Some(i),
        first_escape(step, start, hi) is None ==> first_escape(step, start, lo) is None,
    decreases hi - lo,
{
    if lo < hi {
        lemma_escape_monotonic(step, start, lo, (hi - 1) as nat);
    }
}

/// An escape found below `limit` lies below `limit`, and is the first: no
/// earlier iteration escapes.
pub proof fn lemma_first_escape_is_first<Z, F: Fn(Z) -> (Z, bool)>(step: F, start: Z, limit: nat)
    ensures
        first_escape(step, start, limit) matches Some(i) ==> {
            &&& i < limit
            &&& escapes_at(step, start, i)
            &&& forall|j: nat| j < i ==> !escapes_at(step, start, j)
        },
        first_escape(step, start, limit) is None ==> forall|j: nat| j < limit ==> !escapes_at(step, start, j),
    decreases limit,
{
    if limit > 0 {
        lemma_first_escape_is_first(step, start, (limit - 1) as nat);
    }
}

/// An orbit that escapes at some iteration `k` is reported as escaped for
/// every limit above `k`, at an iteration no later than `k`.
pub proof fn lemma_escape_found_within<Z, F: Fn(Z) -> (Z, bool)>(step: F, start: Z, k: nat, limit: nat)
    requires
        escapes_at(step, start, k),
        k < limit,
    ensures
        first_escape(step, start, limit) matches Some(i) && i <= k,
{
    lemma_first_escape_is_first(step, start, limit);
    lemma_first_escape_is_first(step, start, (k + 1) as nat);
    lemma_escape_monotonic(step, start, (k + 1) as nat, limit);
}

} // verus!
