use vstd::prelude::*;
use crate::direction::{Direction, DIR_ONE};
use crate::raster::Raster;

verus! {

/// Largest magnitude of a projected color: `3 * 255 * DIR_ONE`.
pub const PROJ_BOUND: i64 = 12_834_570_240;

/// The dot product of pixel `i`'s color with `d`, in units of `1 / DIR_ONE`.
pub open spec fn pixel_projection(data: Seq<u8>, i: int, d: Direction) -> int {
    data[3 * i] as int * d.x + data[3 * i + 1] as int * d.y + data[3 * i + 2] as int * d.z
}

/// The projection of every pixel of a raster's bytes onto `d`, in raster order.
pub open spec fn projections(data: Seq<u8>, d: Direction) -> Seq<i64> {
    Seq::new((data.len() / 3) as nat, |i: int| pixel_projection(data, i, d) as i64)
}

proof fn lemma_channel_term(c: u8, k: i64)
    requires
        -DIR_ONE <= k <= DIR_ONE,
    ensures
        -255 * DIR_ONE <= c as int * k <= 255 * DIR_ONE,
{
    assert(-255 * DIR_ONE <= c as int * k <= 255 * DIR_ONE) by (nonlinear_arith)
        requires
            -16_777_216 <= k <= 16_777_216,
            0 <= c <= 255,
            DIR_ONE == 16_777_216,
    ;
}

/// A projection of a byte color onto a unit direction is bounded by
/// `PROJ_BOUND`.
pub proof fn lemma_projection_bound(data: Seq<u8>, i: int, d: Direction)
    requires
        d.wf(),
        0 <= i,
        3 * i + 2 < data.len(),
    ensures
        -PROJ_BOUND <= pixel_projection(data, i, d) <= PROJ_BOUND,
{
    lemma_channel_term(data[3 * i], d.x);
    lemma_channel_term(data[3 * i + 1], d.y);
    lemma_channel_term(data[3 * i + 2], d.z);
}

/// Projects every pixel's color onto `d`.
pub fn project_colors(img: &Raster, d: &Direction) -> (r: Vec<i64>)
    requires
        img.wf(),
        d.wf(),
    ensures
        r@ == projections(img.data@, *d),
        r@.len() == img.pixel_count(),
        forall|i: int| 0 <= i < r@.len() ==> -PROJ_BOUND <= #[trigger] r@[i] <= PROJ_BOUND,
{
    let len: usize = img.data.len();
    let n: usize = len / 3;
    let mut r: Vec<i64> = Vec::with_capacity(n);
    let mut i: usize = 0;
    while i < n
        invariant
            len == img.data@.len(),
            n == len / 3,
            i <= n,
            d.wf(),
            r@.len() == i,
            forall|j: int|
                0 <= j < i ==> #[trigger] r@[j] == pixel_projection(img.data@, j, *d) as i64,
            forall|j: int| 0 <= j < i ==> -PROJ_BOUND <= #[trigger] r@[j] <= PROJ_BOUND,
        decreases n - i,
    {
        assert(3 * i + 2 < img.data@.len());
        proof {
            lemma_projection_bound(img.data@, i as int, *d);
            lemma_channel_term(img.data@[3 * i], d.x);
            lemma_channel_term(img.data@[3 * i + 1], d.y);
            lemma_channel_term(img.data@[3 * i + 2], d.z);
        }
        let p: i64 = img.data[3 * i] as i64 * d.x + img.data[3 * i + 1] as i64 * d.y
            + img.data[3 * i + 2] as i64 * d.z;
        r.push(p);
        i = i + 1;
    }
    assert(r@ =~= projections(img.data@, *d));
    r
}

} // verus!
