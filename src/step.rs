use vstd::prelude::*;

verus! {

/// Fixed-point unit of the step factor: a step of `STEP_ONE` scales
/// displacements by one.
pub const STEP_ONE: i64 = 1_000_000;

/// Smallest initial step factor (0.01).
pub const STEP_MIN: i64 = 10_000;

/// Largest initial step factor (10.0).
pub const STEP_MAX: i64 = 10_000_000;

/// A step factor within the admitted range.
pub open spec fn step_in_range(s: int) -> bool {
    STEP_MIN <= s <= STEP_MAX
}

/// The initial step factor clamped into `[STEP_MIN, STEP_MAX]`.
pub open spec fn clamp_step_spec(s: int) -> int {
    if s < STEP_MIN {
        STEP_MIN as int
    } else if s > STEP_MAX {
        STEP_MAX as int
    } else {
        s
    }
}

/// One relaxation of the step factor toward one: `0.9 * s + 0.1`, rounded down.
pub open spec fn relax_spec(s: int) -> int {
    (9 * s + STEP_ONE) / 10
}

/// The step factor after `n` relaxations of `s`.
pub open spec fn step_after(s: int, n: nat) -> int
    decreases n,
{
    if n == 0 {
        s
    } else {
        relax_spec(step_after(s, (n - 1) as nat))
    }
}

/// Clamps a requested initial step factor into the admitted range.
pub fn clamp_step(s: i64) -> (r: i64)
    ensures
        r == clamp_step_spec(s as int),
        step_in_range(r as int),
{
    if s < STEP_MIN {
        STEP_MIN
    } else if s > STEP_MAX {
        STEP_MAX
    } else {
        s
    }
}

/// Relaxes the step factor toward one after an outer iteration.
pub fn relax_step(s: i64) -> (r: i64)
    requires
        step_in_range(s as int),
    ensures
        r == relax_spec(s as int),
        step_in_range(r as int),
{
    (9 * s + STEP_ONE) / 10
}

/// Relaxation keeps the step factor in range.
pub proof fn lemma_relax_in_range(s: int)
    requires
        step_in_range(s),
    ensures
        step_in_range(relax_spec(s)),
{
}

/// After any number of relaxations of an admitted step factor it is still
/// admitted.
pub proof fn lemma_step_after_in_range(s: int, n: nat)
    requires
        step_in_range(s),
    ensures
        step_in_range(step_after(s, n)),
    decreases n,
{
    if n > 0 {
        lemma_step_after_in_range(s, (n - 1) as nat);
    }
}

/// Relaxation moves the step factor toward one and never past it: from above
/// it strictly decreases; from below it strictly increases while it is at
/// least ten units of `STEP_ONE` away (closer, rounding may hold it still).
pub proof fn lemma_relax_converges(s: int)
    ensures
        s >= STEP_ONE ==> STEP_ONE <= relax_spec(s) <= s,
        s > STEP_ONE ==> relax_spec(s) < s,
        s <= STEP_ONE ==> s <= relax_spec(s) <= STEP_ONE,
        s <= STEP_ONE - 10 ==> s < relax_spec(s),
{
}

/// The distance of the step factor from one never grows, whatever the number
/// of relaxations.
pub proof fn lemma_step_after_monotone(s: int, n: nat)
    ensures
        s >= STEP_ONE ==> STEP_ONE <= step_after(s, n) <= s,
        s <= STEP_ONE ==> s <= step_after(s, n) <= STEP_ONE,
    decreases n,
{
    if n > 0 {
        lemma_step_after_monotone(s, (n - 1) as nat);
        lemma_relax_converges(step_after(s, (n - 1) as nat));
    }
}

} // verus!
