use color_transfer::advection::{add_into, advection_pass};
use color_transfer::advection::zeroed;
use color_transfer::controller::{apply_displacement, average_in_place, iterate_once, transfer};
use color_transfer::coupling::sort_indices_by_key;
use color_transfer::direction::{isqrt, normalize_direction, trunc_div_i128, Direction, DIR_ONE};
use color_transfer::projection::project_colors;
use color_transfer::raster::{match_dimensions, Raster};
use color_transfer::step::{clamp_step, relax_step, STEP_MAX, STEP_MIN, STEP_ONE};

fn raster(width: u32, height: u32, data: Vec<u8>) -> Raster {
    Raster::new(width, height, data).unwrap()
}

fn axis(c: usize) -> Direction {
    let mut v = [0i64; 3];
    v[c] = DIR_ONE;
    Direction { x: v[0], y: v[1], z: v[2] }
}

#[test]
fn raster_new_checks_length() {
    assert!(Raster::new(2, 1, vec![0; 6]).is_some());
    assert!(Raster::new(2, 1, vec![0; 5]).is_none());
    assert!(Raster::new(0, 7, vec![]).is_some());
}

#[test]
fn match_dimensions_resizes_target() {
    let src = raster(2, 2, vec![0; 12]);
    let tgt = raster(4, 3, (0..36).map(|i| (i * 7) as u8).collect());
    let r = match_dimensions(&src, &tgt, false);
    assert_eq!((r.width, r.height), (2, 2));
    assert_eq!(r.data.len(), 12);
}

#[test]
fn match_dimensions_palette_keeps_colors() {
    let src = raster(4, 1, vec![0; 12]);
    let tgt = raster(2, 1, vec![255, 0, 0, 0, 0, 255]);
    let r = match_dimensions(&src, &tgt, true);
    assert_eq!((r.width, r.height), (4, 1));
    assert_eq!(r.data, vec![255, 0, 0, 255, 0, 0, 0, 0, 255, 0, 0, 255]);
}

#[test]
fn match_dimensions_handles_empty_rasters() {
    let src = raster(2, 2, vec![0; 12]);
    let empty = raster(0, 0, vec![]);
    let r = match_dimensions(&src, &empty, false);
    assert_eq!((r.width, r.height, r.data.len()), (2, 2, 12));
    let flat = raster(0, 3, vec![]);
    let tgt = raster(2, 2, vec![9; 12]);
    let r = match_dimensions(&flat, &tgt, true);
    assert_eq!((r.width, r.height, r.data.len()), (0, 3, 0));
}

#[test]
fn match_dimensions_same_size_copies() {
    let src = raster(1, 2, vec![1, 2, 3, 4, 5, 6]);
    let tgt = raster(1, 2, vec![9, 8, 7, 6, 5, 4]);
    let r = match_dimensions(&src, &tgt, false);
    assert_eq!(r.data, tgt.data);
}

#[test]
fn isqrt_values() {
    assert_eq!(isqrt(0), 0);
    assert_eq!(isqrt(15), 3);
    assert_eq!(isqrt(16), 4);
    assert_eq!(isqrt(u64::MAX as u128), 4_294_967_295);
    assert_eq!(isqrt(u128::MAX), u64::MAX);
}

#[test]
fn trunc_div_rounds_toward_zero() {
    assert_eq!(trunc_div_i128(7, 2), 3);
    assert_eq!(trunc_div_i128(-7, 2), -3);
}

#[test]
fn normalize_direction_values() {
    let d = normalize_direction(3, 4, 0).unwrap();
    assert_eq!((d.x, d.y, d.z), (10066329, 13421772, 0));
    let d = normalize_direction(-3, 0, 4).unwrap();
    assert_eq!((d.x, d.y, d.z), (-10066329, 0, 13421772));
    assert!(normalize_direction(0, 0, 0).is_none());
}

#[test]
fn normalized_direction_has_unit_norm() {
    for &(x, y, z) in &[
        (3, 4, 0),
        (65536, 65536, 0),
        (65536, -20000, 1234),
        (-1, -1, -1),
        (1, 0, 0),
        (i32::MAX, i32::MIN, 5),
    ] {
        let d = normalize_direction(x, y, z).unwrap();
        let n = ((d.x * d.x + d.y * d.y + d.z * d.z) as f64).sqrt() / DIR_ONE as f64;
        assert!((n - 1.0).abs() <= 1e-5, "norm {} for {:?}", n, (x, y, z));
    }
}

#[test]
fn project_colors_dot_products() {
    let img = raster(2, 1, vec![1, 2, 3, 10, 0, 255]);
    let d = Direction { x: DIR_ONE, y: -DIR_ONE, z: 2 };
    assert_eq!(project_colors(&img, &d), vec![DIR_ONE - 2 * DIR_ONE + 6, 10 * DIR_ONE + 510]);
}

#[test]
fn sort_indices_stable_by_key() {
    let keys = vec![5i64, -1, 5, 0];
    let p = sort_indices_by_key(&keys);
    assert_eq!(p, vec![1, 3, 0, 2]);
    for k in 1..p.len() {
        assert!(keys[p[k - 1]] <= keys[p[k]]);
    }
    assert!(sort_indices_by_key(&vec![]).is_empty());
}

#[test]
fn step_factor_clamp_and_relax() {
    assert_eq!(clamp_step(0), STEP_MIN);
    assert_eq!(clamp_step(20_000_000), STEP_MAX);
    assert_eq!(clamp_step(STEP_ONE), STEP_ONE);
    assert_eq!(relax_step(STEP_MAX), 9_100_000);
    assert_eq!(relax_step(STEP_ONE), STEP_ONE);
    assert_eq!(relax_step(STEP_MIN), 109_000);
}

#[test]
fn step_factor_trajectory() {
    let mut s = 7_000_000i64;
    for _ in 0..200 {
        let next = relax_step(s);
        assert_eq!(next, (9 * s + STEP_ONE) / 10);
        assert!(next <= s && next >= STEP_ONE);
        s = next;
    }
    assert_eq!(s, STEP_ONE);
}

#[test]
fn advection_pass_writes_by_rank() {
    // two pixels with projections 0 and 10 * DIR_ONE; target reversed and shifted
    let sproj = vec![0i64, 10 * DIR_ONE];
    let tproj = vec![20 * DIR_ONE, 4 * DIR_ONE];
    let sp = sort_indices_by_key(&sproj);
    let tp = sort_indices_by_key(&tproj);
    let d = axis(0);
    let u = DIR_ONE as i128;
    let r = advection_pass(&sp, &tp, &sproj, &tproj, &d, STEP_ONE);
    // pixel 0 pairs with target 1 (mismatch 4), pixel 1 with target 0 (mismatch 10)
    assert_eq!(r, vec![4 * u, 0, 0, 10 * u, 0, 0]);
    let half = advection_pass(&sp, &tp, &sproj, &tproj, &d, STEP_ONE / 2);
    assert_eq!(half, vec![2 * u, 0, 0, 5 * u, 0, 0]);
}

#[test]
fn average_and_apply() {
    let mut acc = vec![-7i128, 7, 8];
    average_in_place(&mut acc, 2);
    assert_eq!(acc, vec![-3, 3, 4]);
    let mut img = raster(1, 1, vec![10, 250, 0]);
    let u = DIR_ONE as i128;
    apply_displacement(&mut img, &vec![-20 * u, 10 * u, -u / 2]);
    assert_eq!(img.data, vec![0, 255, 0]);
    assert_eq!(zeroed(4), vec![0; 4]);
}

#[test]
fn one_iteration_moves_toward_target() {
    let mut src = raster(1, 1, vec![0, 0, 0]);
    let tgt = raster(1, 1, vec![255, 255, 255]);
    let s = iterate_once(&mut src, &tgt, &vec![axis(0)], STEP_ONE);
    assert_eq!(src.data, vec![255, 0, 0]);
    assert_eq!(s, STEP_ONE);
    let mut half = raster(1, 1, vec![0, 0, 0]);
    iterate_once(&mut half, &tgt, &vec![axis(1)], STEP_ONE / 2);
    assert_eq!(half.data, vec![0, 127, 0]);
}

#[test]
fn batch_is_averaged() {
    let mut src = raster(1, 1, vec![0, 0, 0]);
    let tgt = raster(1, 1, vec![100, 200, 0]);
    iterate_once(&mut src, &tgt, &vec![axis(0), axis(1)], STEP_ONE);
    assert_eq!(src.data, vec![50, 100, 0]);
}

#[test]
fn update_is_clamped() {
    let mut up = raster(1, 1, vec![200, 0, 0]);
    let tgt = raster(1, 1, vec![255, 0, 0]);
    iterate_once(&mut up, &tgt, &vec![axis(0)], STEP_MAX);
    assert_eq!(up.data, vec![255, 0, 0]);
    let mut down = raster(1, 1, vec![100, 0, 0]);
    let black = raster(1, 1, vec![0, 0, 0]);
    iterate_once(&mut down, &black, &vec![axis(0)], STEP_MAX);
    assert_eq!(down.data, vec![0, 0, 0]);
}

#[test]
fn zero_iterations_leave_source() {
    let mut src = raster(2, 1, vec![1, 2, 3, 4, 5, 6]);
    let tgt = raster(2, 1, vec![200, 100, 0, 0, 100, 200]);
    let s = transfer(&mut src, &tgt, &vec![], 3 * STEP_ONE);
    assert_eq!(src.data, vec![1, 2, 3, 4, 5, 6]);
    assert_eq!(s, 3 * STEP_ONE);
}

#[test]
fn identical_target_leaves_source() {
    let data: Vec<u8> = (0..48).map(|i| ((i * 37) % 256) as u8).collect();
    let mut src = raster(4, 4, data.clone());
    let tgt = raster(4, 4, data.clone());
    let dirs = vec![
        normalize_direction(1, 2, 3).unwrap(),
        normalize_direction(-5, 1, 0).unwrap(),
        normalize_direction(1, 1, 1).unwrap(),
    ];
    transfer(&mut src, &tgt, &vec![dirs.clone(), dirs.clone(), dirs], STEP_MAX);
    assert_eq!(src.data, data);
}

#[test]
fn black_white_swap_scenario() {
    for &(x, y, z) in &[(1, 1, 1), (1, -2, 1), (-3, 1, 2), (0, 0, -1)] {
        let mut src = raster(2, 1, vec![0, 0, 0, 255, 255, 255]);
        let tgt = raster(2, 1, vec![255, 255, 255, 0, 0, 0]);
        let d = normalize_direction(x, y, z).unwrap();
        let s = transfer(&mut src, &tgt, &vec![vec![d]], STEP_ONE);
        // the coupling pairs equal projections, so nothing moves
        assert_eq!(src.data, vec![0, 0, 0, 255, 255, 255]);
        assert_eq!(s, STEP_ONE);
    }
}

#[test]
fn iterations_do_not_leak_advection() {
    let mut a = raster(2, 1, vec![10, 20, 30, 200, 100, 50]);
    let mut b = raster(2, 1, vec![10, 20, 30, 200, 100, 50]);
    let tgt = raster(2, 1, vec![0, 255, 0, 90, 90, 90]);
    let first = vec![normalize_direction(1, 0, 2).unwrap(), normalize_direction(0, 1, 0).unwrap()];
    let second = vec![normalize_direction(-1, 3, 1).unwrap()];
    let s = transfer(&mut a, &tgt, &vec![first.clone(), second.clone()], 2 * STEP_ONE);
    let s1 = iterate_once(&mut b, &tgt, &first, 2 * STEP_ONE);
    let s2 = iterate_once(&mut b, &tgt, &second, s1);
    assert_eq!(a.data, b.data);
    assert_eq!(s, s2);
    assert_ne!(a.data, vec![10, 20, 30, 200, 100, 50]);
}

#[test]
fn transfer_relaxes_step_factor() {
    let mut src = raster(1, 1, vec![5, 5, 5]);
    let tgt = raster(1, 1, vec![5, 5, 5]);
    let d = vec![axis(2)];
    let s = transfer(&mut src, &tgt, &vec![d.clone(), d.clone()], 50 * STEP_ONE);
    assert_eq!(s, 8_290_000);
    let s = transfer(&mut src, &tgt, &vec![d], 1);
    assert_eq!(s, 109_000);
}

#[test]
fn add_into_sums_entries() {
    let mut acc = vec![1i128, -2, i128::MAX - 1];
    add_into(&mut acc, &vec![10, -20, 1]);
    assert_eq!(acc, vec![11, -22, i128::MAX]);
}
