use vstd::prelude::*;
use crate::advection::{
    add_into, advection_pass, bounded_by, holds_field, pass_field, zero_field, zeroed,
    CONTRIB_BOUND,
};
use crate::coupling::sort_indices_by_key;
use crate::direction::{trunc_div, trunc_div_i128, Direction, DIR_ONE};
use crate::projection::project_colors;
use crate::raster::Raster;
use crate::step::{
    clamp_step, clamp_step_spec, lemma_relax_in_range, relax_spec, relax_step, step_after,
    step_in_range,
};

verus! {

/// The sum of the displacement fields of the first `m` directions.
pub open spec fn batch_sum(
    src: Seq<u8>,
    tgt: Seq<u8>,
    dirs: Seq<Direction>,
    step: int,
    m: nat,
) -> Seq<int>
    decreases m,
{
    if m == 0 {
        zero_field(src.len())
    } else {
        crate::advection::add_fields(
            batch_sum(src, tgt, dirs, step, (m - 1) as nat),
            pass_field(src, tgt, dirs[m - 1], step),
        )
    }
}

/// A channel value clamped into the byte range.
pub open spec fn clamp_channel(v: int) -> int {
    if v < 0 {
        0
    } else if v > 255 {
        255
    } else {
        v
    }
}

/// The per-entry mean of an accumulated field over a batch of `b` directions.
pub open spec fn averaged(acc: Seq<int>, b: int) -> Seq<int> {
    Seq::new(acc.len(), |j: int| trunc_div(acc[j], b))
}

/// The bytes after adding a displacement field (in units of `1 / DIR_ONE`,
/// rounded toward zero) and clamping each channel into `[0, 255]`.
pub open spec fn applied(data: Seq<u8>, avg: Seq<int>) -> Seq<u8> {
    Seq::new(data.len(), |j: int| clamp_channel(data[j] + trunc_div(avg[j], DIR_ONE as int)) as u8)
}

/// The source bytes after one outer iteration over the batch `dirs`.
pub open spec fn iteration_result(
    src: Seq<u8>,
    tgt: Seq<u8>,
    dirs: Seq<Direction>,
    step: int,
) -> Seq<u8> {
    applied(src, averaged(batch_sum(src, tgt, dirs, step, dirs.len()), dirs.len() as int))
}

/// The source bytes after one outer iteration per batch of `batches`, the
/// step factor relaxed after each.
pub open spec fn run_result(
    src: Seq<u8>,
    tgt: Seq<u8>,
    batches: Seq<Seq<Direction>>,
    step: int,
) -> Seq<u8>
    decreases batches.len(),
{
    if batches.len() == 0 {
        src
    } else {
        run_result(
            iteration_result(src, tgt, batches[0], step),
            tgt,
            batches.drop_first(),
            relax_spec(step),
        )
    }
}

/// The batches of a run as sequences.
pub open spec fn batch_views(batches: Seq<Vec<Direction>>) -> Seq<Seq<Direction>> {
    batches.map_values(|v: Vec<Direction>| v@)
}

/// Each batch is non-empty, of unit directions, and no larger than `u32::MAX`.
pub open spec fn valid_batch(dirs: Seq<Direction>) -> bool {
    &&& 1 <= dirs.len() <= u32::MAX
    &&& forall|k: int| 0 <= k < dirs.len() ==> (#[trigger] dirs[k]).wf()
}

proof fn lemma_batch_sum_len(src: Seq<u8>, tgt: Seq<u8>, dirs: Seq<Direction>, step: int, m: nat)
    ensures
        batch_sum(src, tgt, dirs, step, m).len() == src.len(),
    decreases m,
{
    if m > 0 {
        lemma_batch_sum_len(src, tgt, dirs, step, (m - 1) as nat);
    }
}

proof fn lemma_trunc_div_shrinks(a: int, q: int)
    requires
        q >= 1,
    ensures
        a >= 0 ==> 0 <= trunc_div(a, q) <= a,
        a < 0 ==> a <= trunc_div(a, q) <= 0,
{
    if a >= 0 {
        assert(0 <= a / q <= a) by (nonlinear_arith)
            requires
                a >= 0,
                q >= 1,
        ;
    } else {
        assert(0 <= (-a) / q <= -a) by (nonlinear_arith)
            requires
                -a >= 0,
                q >= 1,
        ;
    }
}

/// Divides every accumulated entry by the batch size, rounding toward zero.
pub fn average_in_place(acc: &mut Vec<i128>, batch_size: u32)
    requires
        batch_size >= 1,
        bounded_by(old(acc)@, i128::MAX as int),
    ensures
        final(acc)@.len() == old(acc)@.len(),
        forall|j: int|
            0 <= j < final(acc)@.len() ==> #[trigger] final(acc)@[j] as int == trunc_div(
                old(acc)@[j] as int,
                batch_size as int,
            ),
{
    let len: usize = acc.len();
    let mut j: usize = 0;
    while j < len
        invariant
            len == old(acc)@.len(),
            acc@.len() == len,
            j <= len,
            batch_size >= 1,
            bounded_by(old(acc)@, i128::MAX as int),
            forall|i: int|
                0 <= i < j ==> #[trigger] acc@[i] as int == trunc_div(
                    old(acc)@[i] as int,
                    batch_size as int,
                ),
            forall|i: int| j <= i < len ==> #[trigger] acc@[i] == old(acc)@[i],
        decreases len - j,
    {
        proof {
            lemma_trunc_div_shrinks(acc@[j as int] as int, batch_size as int);
        }
        let v: i128 = trunc_div_i128(acc[j], batch_size as i128);
        acc.set(j, v);
        j = j + 1;
    }
}

/// Adds the averaged displacement to every channel of the raster, in a wide
/// type, and clamps each result into `[0, 255]`.
pub fn apply_displacement(img: &mut Raster, avg: &Vec<i128>)
    requires
        old(img).wf(),
        bounded_by(avg@, i128::MAX - 255),
        avg@.len() == old(img).data@.len(),
    ensures
        final(img).wf(),
        final(img).width == old(img).width,
        final(img).height == old(img).height,
        final(img).data@ == applied(old(img).data@, avg@.map_values(|v: i128| v as int)),
{
    let len: usize = img.data.len();
    let mut j: usize = 0;
    while j < len
        invariant
            len == old(img).data@.len(),
            img.data@.len() == len,
            img.width == old(img).width,
            img.height == old(img).height,
            avg@.len() == len,
            bounded_by(avg@, i128::MAX - 255),
            j <= len,
            forall|i: int|
                0 <= i < j ==> #[trigger] img.data@[i] == clamp_channel(
                    old(img).data@[i] + trunc_div(avg@[i] as int, DIR_ONE as int),
                ) as u8,
            forall|i: int| j <= i < len ==> #[trigger] img.data@[i] == old(img).data@[i],
        decreases len - j,
    {
        proof {
            lemma_trunc_div_shrinks(avg@[j as int] as int, DIR_ONE as int);
        }
        let shift: i128 = trunc_div_i128(avg[j], DIR_ONE as i128);
        let v: i128 = img.data[j] as i128 + shift;
        let c: u8 = if v < 0 {
            0
        } else if v > 255 {
            255
        } else {
            v as u8
        };
        img.data.set(j, c);
        j = j + 1;
    }
    assert(img.data@ =~= applied(old(img).data@, avg@.map_values(|v: i128| v as int)));
}

/// One outer iteration: a zeroed advection map, one pass per direction of
/// the batch, the per-entry mean over the batch, the clamped update of the
/// source raster; returns the relaxed step factor.
pub fn iterate_once(src: &mut Raster, tgt: &Raster, dirs: &Vec<Direction>, step: i64) -> (r: i64)
    requires
        old(src).wf(),
        tgt.wf(),
        tgt.width == old(src).width,
        tgt.height == old(src).height,
        valid_batch(dirs@),
        step_in_range(step as int),
    ensures
        final(src).wf(),
        final(src).width == old(src).width,
        final(src).height == old(src).height,
        final(src).data@ == iteration_result(old(src).data@, tgt.data@, dirs@, step as int),
        r == relax_spec(step as int),
        step_in_range(r as int),
{
    let len: usize = src.data.len();
    let batch: usize = dirs.len();
    let mut acc: Vec<i128> = zeroed(len);
    let ghost s0 = src.data@;
    let mut m: usize = 0;
    while m < batch
        invariant
            batch == dirs@.len(),
            valid_batch(dirs@),
            m <= batch,
            src.wf(),
            tgt.wf(),
            src.data@ == s0,
            len == s0.len(),
            tgt.data@.len() == len,
            step_in_range(step as int),
            holds_field(acc@, batch_sum(s0, tgt.data@, dirs@, step as int, m as nat)),
            bounded_by(acc@, m * CONTRIB_BOUND),
        decreases batch - m,
    {
        let d: Direction = dirs[m];
        proof {
            lemma_batch_sum_len(s0, tgt.data@, dirs@, step as int, m as nat);
            assert(3 * (len as int / 3) == len);
        }
        let sproj = project_colors(src, &d);
        let sp = sort_indices_by_key(&sproj);
        let tproj = project_colors(tgt, &d);
        let tp = sort_indices_by_key(&tproj);
        let pass = advection_pass(&sp, &tp, &sproj, &tproj, &d, step);
        let ghost before = acc@;
        assert forall|j: int| 0 <= j < pass@.len() implies i128::MIN <= acc@[j] + #[trigger] pass@[j]
            <= i128::MAX by {
            assert(-(m * CONTRIB_BOUND) <= acc@[j] <= m * CONTRIB_BOUND);
        }
        add_into(&mut acc, &pass);
        m = m + 1;
        proof {
            let prev = batch_sum(s0, tgt.data@, dirs@, step as int, (m - 1) as nat);
            let pf = pass_field(s0, tgt.data@, d, step as int);
            assert(dirs@[m - 1] == d);
            assert(batch_sum(s0, tgt.data@, dirs@, step as int, m as nat) == crate::advection::add_fields(prev, pf));
            assert(pf == crate::advection::pass_upto(sp@, tp@, sproj@, tproj@, d, step as int, sp@.len()));
            assert forall|j: int| 0 <= j < acc@.len() implies #[trigger] acc@[j] as int
                == crate::advection::add_fields(prev, pf)[j] by {
                assert(before[j] as int == prev[j]);
                assert(pass@[j] as int == pf[j]);
            }
            assert(m * CONTRIB_BOUND == (m - 1) * CONTRIB_BOUND + CONTRIB_BOUND);
            assert forall|j: int| 0 <= j < acc@.len() implies -(m * CONTRIB_BOUND) <= #[trigger] acc@[j]
                <= m * CONTRIB_BOUND by {
                assert(-((m - 1) * CONTRIB_BOUND) <= before[j] <= (m - 1) * CONTRIB_BOUND);
                assert(-CONTRIB_BOUND <= pass@[j] <= CONTRIB_BOUND);
            }
        }
    }
    let ghost total = batch_sum(s0, tgt.data@, dirs@, step as int, batch as nat);
    proof {
        lemma_batch_sum_len(s0, tgt.data@, dirs@, step as int, batch as nat);
    }
    let ghost summed = acc@;
    average_in_place(&mut acc, batch as u32);
    assert forall|j: int| 0 <= j < acc@.len() implies -(i128::MAX - 255) <= #[trigger] acc@[j]
        <= i128::MAX - 255 by {
        assert(-(batch * CONTRIB_BOUND) <= summed[j] <= batch * CONTRIB_BOUND);
        lemma_trunc_div_shrinks(summed[j] as int, batch as int);
    }
    proof {
        assert(acc@.map_values(|v: i128| v as int) =~= averaged(total, batch as int));
    }
    apply_displacement(src, &acc);
    proof {
        lemma_relax_in_range(step as int);
    }
    relax_step(step)
}

/// Runs the whole color transfer: one outer iteration per batch of
/// directions, starting from the requested step factor clamped into range and
/// relaxing it after each iteration; returns the final step factor.
pub fn transfer(
    src: &mut Raster,
    tgt: &Raster,
    batches: &Vec<Vec<Direction>>,
    step_factor: i64,
) -> (r: i64)
    requires
        old(src).wf(),
        tgt.wf(),
        tgt.width == old(src).width,
        tgt.height == old(src).height,
        forall|t: int| 0 <= t < batches@.len() ==> valid_batch(#[trigger] batches@[t]@),
    ensures
        final(src).wf(),
        final(src).width == old(src).width,
        final(src).height == old(src).height,
        final(src).data@ == run_result(
            old(src).data@,
            tgt.data@,
            batch_views(batches@),
            clamp_step_spec(step_factor as int),
        ),
        r == step_after(clamp_step_spec(step_factor as int), batches@.len()),
{
    let ghost views = batch_views(batches@);
    let ghost s0 = src.data@;
    let ghost first = clamp_step_spec(step_factor as int);
    let mut step: i64 = clamp_step(step_factor);
    let n: usize = batches.len();
    let mut t: usize = 0;
    assert(views.skip(0) =~= views);
    while t < n
        invariant
            n == batches@.len(),
            views == batch_views(batches@),
            t <= n,
            src.wf(),
            tgt.wf(),
            tgt.width == src.width,
            tgt.height == src.height,
            src.width == old(src).width,
            src.height == old(src).height,
            forall|t: int| 0 <= t < batches@.len() ==> valid_batch(#[trigger] batches@[t]@),
            step_in_range(step as int),
            step == step_after(first, t as nat),
            run_result(src.data@, tgt.data@, views.skip(t as int), step as int) == run_result(
                s0,
                tgt.data@,
                views,
                first,
            ),
        decreases n - t,
    {
        step = iterate_once(src, tgt, &batches[t], step);
        proof {
            let rest = views.skip(t as int);
            assert(rest[0] == batches@[t as int]@);
            assert(rest.drop_first() =~= views.skip(t + 1));
        }
        t = t + 1;
    }
    proof {
        assert(views.skip(n as int).len() == 0);
    }
    step
}

/// A run over no batch leaves the source bytes as they are.
pub proof fn lemma_zero_iterations(src: Seq<u8>, tgt: Seq<u8>, step: int)
    ensures
        run_result(src, tgt, Seq::<Seq<Direction>>::empty(), step) == src,
{
}

/// Every channel written by the update is the clamped sum itself: the
/// narrowing to a byte loses nothing, so no overflow or underflow escapes the
/// clamp.
pub proof fn lemma_applied_exact(data: Seq<u8>, avg: Seq<int>, j: int)
    requires
        0 <= j < data.len(),
    ensures
        applied(data, avg)[j] as int == clamp_channel(data[j] + trunc_div(avg[j], DIR_ONE as int)),
        0 <= applied(data, avg)[j] <= 255,
{
}

proof fn lemma_step_after_shift(s: int, n: nat)
    ensures
        step_after(relax_spec(s), n) == step_after(s, n + 1),
    decreases n,
{
    if n > 0 {
        lemma_step_after_shift(s, (n - 1) as nat);
        assert(step_after(relax_spec(s), n) == relax_spec(step_after(relax_spec(s), (n - 1) as nat)));
        assert(step_after(s, n + 1) == relax_spec(step_after(s, n)));
    } else {
        assert(step_after(s, 1) == relax_spec(step_after(s, 0)));
    }
}

/// Outer iterations share no state but the source raster and the step factor:
/// each starts from a zeroed advection map, so a run over `a` followed by `b`
/// equals a run over `b` from the raster and step factor that `a` left.
pub proof fn lemma_run_split(
    src: Seq<u8>,
    tgt: Seq<u8>,
    a: Seq<Seq<Direction>>,
    b: Seq<Seq<Direction>>,
    step: int,
)
    ensures
        run_result(src, tgt, a + b, step) == run_result(
            run_result(src, tgt, a, step),
            tgt,
            b,
            step_after(step, a.len()),
        ),
    decreases a.len(),
{
    if a.len() == 0 {
        assert(a + b =~= b);
    } else {
        let next = iteration_result(src, tgt, a[0], step);
        assert((a + b)[0] == a[0]);
        assert((a + b).drop_first() =~= a.drop_first() + b);
        lemma_run_split(next, tgt, a.drop_first(), b, relax_spec(step));
        lemma_step_after_shift(step, (a.len() - 1) as nat);
    }
}

proof fn lemma_matched_pass_zero(
    sp: Seq<usize>,
    proj: Seq<i64>,
    d: Direction,
    step: int,
    k: nat,
)
    requires
        k <= sp.len(),
        forall|r: int| 0 <= r < sp.len() ==> (#[trigger] sp[r] as int) < proj.len(),
    ensures
        crate::advection::pass_upto(sp, sp, proj, proj, d, step, k) == zero_field(3 * proj.len()),
    decreases k,
{
    if k > 0 {
        lemma_matched_pass_zero(sp, proj, d, step, (k - 1) as nat);
        let i = sp[k - 1] as int;
        assert(step * 0 * d.x == 0 && step * 0 * d.y == 0 && step * 0 * d.z == 0)
            by (nonlinear_arith);
        let z = zero_field(3 * proj.len());
        assert(z.update(3 * i, 0).update(3 * i + 1, 0).update(3 * i + 2, 0) =~= z);
    }
}

proof fn lemma_identical_batch_zero(x: Seq<u8>, dirs: Seq<Direction>, step: int, m: nat)
    requires
        x.len() % 3 == 0,
    ensures
        batch_sum(x, x, dirs, step, m) == zero_field(x.len()),
    decreases m,
{
    if m > 0 {
        lemma_identical_batch_zero(x, dirs, step, (m - 1) as nat);
        let d = dirs[m - 1];
        let p = crate::projection::projections(x, d);
        crate::coupling::lemma_rank_order_sorted(p);
        lemma_matched_pass_zero(crate::coupling::rank_order(p), p, d, step, p.len());
        assert(crate::advection::add_fields(zero_field(x.len()), zero_field(3 * p.len()))
            =~= zero_field(x.len()));
    }
}

/// With the target identical to the source, every projected mismatch is zero,
/// so an outer iteration leaves the source bytes unchanged.
pub proof fn lemma_identical_target_iteration(x: Seq<u8>, dirs: Seq<Direction>, step: int)
    requires
        x.len() % 3 == 0,
        dirs.len() >= 1,
    ensures
        iteration_result(x, x, dirs, step) == x,
{
    lemma_identical_batch_zero(x, dirs, step, dirs.len());
    assert(averaged(zero_field(x.len()), dirs.len() as int) =~= zero_field(x.len()));
    assert(applied(x, zero_field(x.len())) =~= x);
}

/// With the target identical to the source, a run of any number of outer
/// iterations leaves the source bytes unchanged.
pub proof fn lemma_identical_target_run(x: Seq<u8>, batches: Seq<Seq<Direction>>, step: int)
    requires
        x.len() % 3 == 0,
        forall|t: int| 0 <= t < batches.len() ==> (#[trigger] batches[t]).len() >= 1,
    ensures
        run_result(x, x, batches, step) == x,
    decreases batches.len(),
{
    if batches.len() > 0 {
        lemma_identical_target_iteration(x, batches[0], step);
        lemma_identical_target_run(x, batches.drop_first(), relax_spec(step));
    }
}

} // verus!
