use vstd::prelude::*;
use crate::coupling::rank_order;
use crate::direction::{trunc_div, trunc_div_i128, Direction, DIR_ONE};
use crate::projection::{projections, PROJ_BOUND};
use crate::step::{step_in_range, STEP_MAX, STEP_ONE};

verus! {

/// Largest magnitude of one displacement component contributed by one rank
/// pair: `STEP_MAX / STEP_ONE * 2 * PROJ_BOUND`.
pub const CONTRIB_BOUND: i64 = 256_691_404_800;

/// The displacement along one channel for one coupled pair: the step factor
/// times the projected mismatch times the direction's component, in units of
/// `1 / DIR_ONE` of a color level, rounded toward zero.
pub open spec fn contribution(step: int, diff: int, dk: int) -> int {
    trunc_div(step * diff * dk, STEP_ONE * DIR_ONE)
}

/// A field of `len` zero displacements.
pub open spec fn zero_field(len: nat) -> Seq<int> {
    Seq::new(len, |j: int| 0int)
}

/// The displacement field of one direction after the first `k` ranks of the
/// coupling `(sp[r], tp[r])`: three entries per pixel, each source pixel's
/// entries written at its rank. The coupling is a permutation, so each pixel
/// is written once.
pub open spec fn pass_upto(
    sp: Seq<usize>,
    tp: Seq<usize>,
    sproj: Seq<i64>,
    tproj: Seq<i64>,
    d: Direction,
    step: int,
    k: nat,
) -> Seq<int>
    decreases k,
{
    if k == 0 {
        zero_field(3 * sproj.len())
    } else {
        let prev = pass_upto(sp, tp, sproj, tproj, d, step, (k - 1) as nat);
        let i = sp[k - 1] as int;
        let diff = tproj[tp[k - 1] as int] - sproj[i];
        prev.update(3 * i, contribution(step, diff, d.x as int)).update(
            3 * i + 1,
            contribution(step, diff, d.y as int),
        ).update(3 * i + 2, contribution(step, diff, d.z as int))
    }
}

/// The displacement field that direction `d` induces on the source raster's
/// bytes `src` toward the target's bytes `tgt`.
pub open spec fn pass_field(src: Seq<u8>, tgt: Seq<u8>, d: Direction, step: int) -> Seq<int> {
    let sproj = projections(src, d);
    let tproj = projections(tgt, d);
    pass_upto(rank_order(sproj), rank_order(tproj), sproj, tproj, d, step, sproj.len())
}

/// Component-wise sum of two fields.
pub open spec fn add_fields(a: Seq<int>, b: Seq<int>) -> Seq<int> {
    Seq::new(a.len(), |j: int| a[j] + b[j])
}

/// A machine vector holds exactly the values of a field.
pub open spec fn holds_field(v: Seq<i128>, f: Seq<int>) -> bool {
    v.len() == f.len() && forall|j: int| 0 <= j < v.len() ==> #[trigger] v[j] as int == f[j]
}

/// Every value of a machine vector lies within `[-bound, bound]`.
pub open spec fn bounded_by(v: Seq<i128>, bound: int) -> bool {
    forall|j: int| 0 <= j < v.len() ==> -bound <= #[trigger] v[j] <= bound
}

/// Every projection lies within `[-PROJ_BOUND, PROJ_BOUND]`.
pub open spec fn proj_bounded(v: Seq<i64>) -> bool {
    forall|j: int| 0 <= j < v.len() ==> -PROJ_BOUND <= #[trigger] v[j] <= PROJ_BOUND
}

proof fn lemma_pass_upto_len(
    sp: Seq<usize>,
    tp: Seq<usize>,
    sproj: Seq<i64>,
    tproj: Seq<i64>,
    d: Direction,
    step: int,
    k: nat,
)
    requires
        k <= sp.len(),
        forall|r: int| 0 <= r < sp.len() ==> (#[trigger] sp[r] as int) < sproj.len(),
    ensures
        pass_upto(sp, tp, sproj, tproj, d, step, k).len() == 3 * sproj.len(),
    decreases k,
{
    if k > 0 {
        lemma_pass_upto_len(sp, tp, sproj, tproj, d, step, (k - 1) as nat);
    }
}

/// A quotient rounded toward zero is no larger in magnitude than `bound` when
/// the dividend is at most `bound * q`.
proof fn lemma_trunc_div_bound(a: int, q: int, bound: int)
    requires
        q > 0,
        bound >= 0,
        -(bound * q) <= a <= bound * q,
    ensures
        -bound <= trunc_div(a, q) <= bound,
{
    if a >= 0 {
        assert(a / q <= bound && a / q >= 0) by (nonlinear_arith)
            requires
                0 <= a <= bound * q,
                q > 0,
        ;
    } else {
        assert((-a) / q <= bound && (-a) / q >= 0) by (nonlinear_arith)
            requires
                0 <= -a <= bound * q,
                q > 0,
        ;
    }
}

/// One contribution stays within `CONTRIB_BOUND`.
proof fn lemma_contribution_bound(step: int, diff: int, dk: int)
    requires
        step_in_range(step),
        -2 * PROJ_BOUND <= diff <= 2 * PROJ_BOUND,
        -DIR_ONE <= dk <= DIR_ONE,
    ensures
        -CONTRIB_BOUND <= contribution(step, diff, dk) <= CONTRIB_BOUND,
        -0x400_0000_0000_0000_0000_0000 <= step * diff * dk <= 0x400_0000_0000_0000_0000_0000,
{
    let p = step * diff * dk;
    assert(-((STEP_MAX * (2 * PROJ_BOUND)) * DIR_ONE) <= p <= (STEP_MAX * (2 * PROJ_BOUND))
        * DIR_ONE) by (nonlinear_arith)
        requires
            0 <= step <= STEP_MAX,
            -2 * PROJ_BOUND <= diff <= 2 * PROJ_BOUND,
            -DIR_ONE <= dk <= DIR_ONE,
            p == step * diff * dk,
            STEP_MAX > 0,
            PROJ_BOUND > 0,
            DIR_ONE > 0,
    ;
    lemma_trunc_div_bound(p, STEP_ONE * DIR_ONE, CONTRIB_BOUND as int);
}

/// One channel's contribution, computed in 128-bit arithmetic.
fn contribution_exec(step: i64, diff: i64, dk: i64) -> (r: i128)
    requires
        step_in_range(step as int),
        -2 * PROJ_BOUND <= diff <= 2 * PROJ_BOUND,
        -DIR_ONE <= dk <= DIR_ONE,
    ensures
        r == contribution(step as int, diff as int, dk as int),
        -CONTRIB_BOUND <= r <= CONTRIB_BOUND,
{
    proof {
        lemma_contribution_bound(step as int, diff as int, dk as int);
    }
    assert(-(STEP_MAX * (2 * PROJ_BOUND)) <= step * diff <= STEP_MAX * (2 * PROJ_BOUND))
        by (nonlinear_arith)
        requires
            0 <= step <= STEP_MAX,
            -2 * PROJ_BOUND <= diff <= 2 * PROJ_BOUND,
    ;
    let sd: i128 = step as i128 * diff as i128;
    assert(sd * dk == step * diff * dk);
    let p: i128 = sd * dk as i128;
    trunc_div_i128(p, (STEP_ONE as i128) * (DIR_ONE as i128))
}

/// Computes the displacement field of one direction from the rank coupling of
/// the two projections: for each rank `k`, the mismatch
/// `tproj[tp[k]] - sproj[sp[k]]`, scaled by the step factor and by each
/// component of `d`, is written to the entries of source pixel `sp[k]`.
pub fn advection_pass(
    sp: &Vec<usize>,
    tp: &Vec<usize>,
    sproj: &Vec<i64>,
    tproj: &Vec<i64>,
    d: &Direction,
    step: i64,
) -> (r: Vec<i128>)
    requires
        sp@.len() == sproj@.len(),
        tp@.len() == sp@.len(),
        tproj@.len() == sproj@.len(),
        3 * sproj@.len() <= usize::MAX,
        forall|k: int| 0 <= k < sp@.len() ==> (#[trigger] sp@[k] as int) < sproj@.len(),
        forall|k: int| 0 <= k < tp@.len() ==> (#[trigger] tp@[k] as int) < tproj@.len(),
        proj_bounded(sproj@),
        proj_bounded(tproj@),
        d.wf(),
        step_in_range(step as int),
    ensures
        r@.len() == 3 * sproj@.len(),
        holds_field(r@, pass_upto(sp@, tp@, sproj@, tproj@, *d, step as int, sp@.len())),
        bounded_by(r@, CONTRIB_BOUND as int),
{
    let n: usize = sproj.len();
    let len: usize = 3 * n;
    let mut r: Vec<i128> = zeroed(len);
    assert(holds_field(r@, pass_upto(sp@, tp@, sproj@, tproj@, *d, step as int, 0)));
    let mut k: usize = 0;
    while k < n
        invariant
            n == sproj@.len(),
            len == 3 * n,
            k <= n,
            sp@.len() == n,
            tp@.len() == n,
            tproj@.len() == n,
            forall|k: int| 0 <= k < sp@.len() ==> (#[trigger] sp@[k] as int) < sproj@.len(),
            forall|k: int| 0 <= k < tp@.len() ==> (#[trigger] tp@[k] as int) < tproj@.len(),
            proj_bounded(sproj@),
            proj_bounded(tproj@),
            d.wf(),
            step_in_range(step as int),
            holds_field(r@, pass_upto(sp@, tp@, sproj@, tproj@, *d, step as int, k as nat)),
            r@.len() == len,
            bounded_by(r@, CONTRIB_BOUND as int),
        decreases n - k,
    {
        let i: usize = sp[k];
        let t: usize = tp[k];
        let diff: i64 = tproj[t] - sproj[i];
        let cx = contribution_exec(step, diff, d.x);
        let cy = contribution_exec(step, diff, d.y);
        let cz = contribution_exec(step, diff, d.z);
        let ghost prev = pass_upto(sp@, tp@, sproj@, tproj@, *d, step as int, k as nat);
        proof {
            lemma_pass_upto_len(sp@, tp@, sproj@, tproj@, *d, step as int, k as nat);
        }
        r.set(3 * i, cx);
        r.set(3 * i + 1, cy);
        r.set(3 * i + 2, cz);
        k = k + 1;
        proof {
            let next = pass_upto(sp@, tp@, sproj@, tproj@, *d, step as int, k as nat);
            assert(next == prev.update(3 * i as int, cx as int).update(3 * i + 1, cy as int).update(
                3 * i + 2,
                cz as int,
            ));
        }
    }
    r
}

/// A zero-filled accumulator of `len` entries.
pub fn zeroed(len: usize) -> (r: Vec<i128>)
    ensures
        holds_field(r@, zero_field(len as nat)),
        bounded_by(r@, 0),
{
    let mut r: Vec<i128> = Vec::with_capacity(len);
    let mut j: usize = 0;
    while j < len
        invariant
            j <= len,
            r@.len() == j,
            forall|i: int| 0 <= i < j ==> #[trigger] r@[i] == 0,
        decreases len - j,
    {
        r.push(0);
        j = j + 1;
    }
    r
}

/// Adds a field into an accumulator, entry by entry.
pub fn add_into(acc: &mut Vec<i128>, pass: &Vec<i128>)
    requires
        old(acc)@.len() == pass@.len(),
        forall|j: int|
            0 <= j < pass@.len() ==> i128::MIN <= old(acc)@[j] + #[trigger] pass@[j] <= i128::MAX,
    ensures
        final(acc)@.len() == old(acc)@.len(),
        forall|j: int|
            0 <= j < final(acc)@.len() ==> #[trigger] final(acc)@[j] as int == old(acc)@[j]
                + pass@[j],
{
    let len: usize = acc.len();
    let mut j: usize = 0;
    while j < len
        invariant
            len == old(acc)@.len(),
            len == pass@.len(),
            acc@.len() == len,
            j <= len,
            forall|i: int|
                0 <= i < pass@.len() ==> i128::MIN <= old(acc)@[i] + #[trigger] pass@[i] <= i128::MAX,
            forall|i: int| 0 <= i < j ==> #[trigger] acc@[i] as int == old(acc)@[i] + pass@[i],
            forall|i: int| j <= i < len ==> #[trigger] acc@[i] == old(acc)@[i],
        decreases len - j,
    {
        let v: i128 = acc[j] + pass[j];
        acc.set(j, v);
        j = j + 1;
    }
}

} // verus!
