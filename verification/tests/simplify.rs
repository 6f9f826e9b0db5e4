use trajectory_core::error::InvalidArgument;
use trajectory_core::filter::filter;
use trajectory_core::simplify::{douglas_peucker_iterative, perpendicular_distance_squared, simplify};

#[test]
fn test_simplify_empty() {
    let result = simplify(&[], &[], 1).unwrap();
    assert_eq!(result, vec![]);
}

#[test]
fn test_simplify_single_point() {
    let result = simplify(&[1], &[1], 1).unwrap();
    assert_eq!(result, vec![true]);
}

#[test]
fn test_simplify_two_points() {
    let result = simplify(&[1, 2], &[1, 2], 1).unwrap();
    assert_eq!(result, vec![true, true]);
}

#[test]
fn test_simplify_straight_line() {
    // A straight line of 5 points
    let x = vec![0, 1, 2, 3, 4];
    let y = vec![0, 1, 2, 3, 4];
    let result = simplify(&x, &y, 1).unwrap();
    // Should only keep first and last points
    assert_eq!(result, vec![true, false, false, false, true]);
}

#[test]
fn test_simplify_zigzag() {
    // A zigzag pattern with more pronounced changes
    let x = vec![0, 1, 2, 3, 4];
    let y = vec![0, 5, 0, 5, 0];
    let result = simplify(&x, &y, 1).unwrap();
    // With a small epsilon, we should keep all points due to the significant changes
    assert_eq!(result, vec![true, true, true, true, true]);
}

#[test]
#[should_panic]
fn test_simplify_negative_epsilon() {
    simplify(&[1, 2], &[1, 2], -1).unwrap();
}

#[test]
#[should_panic]
fn test_simplify_mismatched_lengths() {
    simplify(&[1, 2], &[1], 1).unwrap();
}

#[test]
fn simplify_reports_negative_tolerance() {
    assert_eq!(simplify(&[1, 2], &[1, 2], -1), Err(InvalidArgument::NegativeTolerance));
    assert_eq!(simplify(&[], &[], i64::MIN), Err(InvalidArgument::NegativeTolerance));
}

#[test]
fn simplify_reports_length_mismatch_before_tolerance() {
    assert_eq!(simplify(&[1, 2], &[1], 1), Err(InvalidArgument::LengthMismatch));
    assert_eq!(simplify(&[], &[1], -1), Err(InvalidArgument::LengthMismatch));
}

#[test]
fn simplify_collinear_with_zero_tolerance_drops_middle() {
    let result = simplify(&[0, 5, 10], &[0, 10, 20], 0).unwrap();
    assert_eq!(result, vec![true, false, true]);
}

#[test]
fn simplify_zero_tolerance_keeps_any_deviation() {
    let result = simplify(&[0, 5, 10], &[0, 40, 20], 0).unwrap();
    assert_eq!(result, vec![true, true, true]);
    // A deviation whose squared distance rounds down to zero is not kept.
    let result = simplify(&[0, 5, 10], &[0, 11, 20], 0).unwrap();
    assert_eq!(result, vec![true, false, true]);
}

#[test]
fn simplify_threshold_is_strict() {
    // The middle point lies at squared distance 25 from the chord.
    assert_eq!(simplify(&[0, 0, 10], &[0, 5, 0], 5).unwrap(), vec![true, false, true]);
    assert_eq!(simplify(&[0, 0, 10], &[0, 5, 0], 4).unwrap(), vec![true, true, true]);
}

#[test]
fn simplify_ties_go_to_the_lowest_index() {
    // Both peaks lie at squared distance 64 from the first chord. The split
    // goes to the first of them, and the second is then within tolerance of
    // the chord that starts there.
    let x = vec![0, 10, 20, 30, 40];
    let y = vec![0, 8, 0, 8, 0];
    assert_eq!(simplify(&x, &y, 7).unwrap(), vec![true, true, false, false, true]);
    let y = vec![0, 8, 8, 8, 0];
    assert_eq!(simplify(&x, &y, 7).unwrap(), vec![true, true, false, false, true]);
}

#[test]
fn simplify_mask_has_input_length_and_keeps_ends() {
    let x: Vec<i64> = (0..50).map(|i| i * 10).collect();
    let y: Vec<i64> = (0..50).map(|i| (i * i * 7) % 23 - 11).collect();
    for eps in [0, 1, 2, 5, 10, 100] {
        let mask = simplify(&x, &y, eps).unwrap();
        assert_eq!(mask.len(), x.len());
        assert!(mask[0]);
        assert!(mask[mask.len() - 1]);
    }
}

#[test]
fn simplify_graded_tolerances() {
    let x = vec![0, 10, 20, 30, 40, 50, 60, 70, 80, 90];
    let y = vec![0, 3, -2, 8, 1, 0, -9, 2, 1, 0];
    assert_eq!(
        simplify(&x, &y, 2).unwrap(),
        vec![true, true, true, true, true, true, true, true, false, true]
    );
    assert_eq!(
        simplify(&x, &y, 3).unwrap(),
        vec![true, true, true, true, false, false, true, true, false, true]
    );
    assert_eq!(
        simplify(&x, &y, 5).unwrap(),
        vec![true, false, true, true, false, false, true, true, false, true]
    );
    assert_eq!(
        simplify(&x, &y, 10).unwrap(),
        vec![true, false, false, false, false, false, false, false, false, true]
    );
}

#[test]
fn simplify_is_idempotent_on_examples() {
    let x = vec![0, 10, 20, 30, 40, 50, 60, 70, 80, 90];
    let y = vec![0, 3, -2, 8, 1, 0, -9, 2, 1, 0];
    for eps in [0, 1, 2, 3, 5, 10] {
        let mask = simplify(&x, &y, eps).unwrap();
        let kept_x = filter(&x, &mask).unwrap();
        let kept_y = filter(&y, &mask).unwrap();
        let again = simplify(&kept_x, &kept_y, eps).unwrap();
        assert_eq!(again, vec![true; kept_x.len()]);
    }
}

#[test]
fn simplify_handles_the_whole_coordinate_range() {
    let x = vec![i64::MIN, 0, i64::MAX, 0, i64::MIN];
    let y = vec![i64::MIN, i64::MAX, i64::MIN, i64::MIN, i64::MAX];
    assert_eq!(simplify(&x, &y, i64::MAX).unwrap(), vec![true, true, true, false, true]);
    assert_eq!(simplify(&x, &y, 0).unwrap(), vec![true, true, true, true, true]);
    let x = vec![i64::MIN, -1, i64::MAX];
    let y = vec![i64::MIN, 0, i64::MAX];
    assert_eq!(simplify(&x, &y, 0).unwrap(), vec![true, false, true]);
}

#[test]
fn refinement_adds_to_the_given_mask() {
    let x = vec![0, 1, 2, 3, 4];
    let y = vec![0, 5, 0, 5, 0];
    let mut mask = vec![false; 5];
    douglas_peucker_iterative(&x, &y, 1, &mut mask);
    assert_eq!(mask, vec![false, true, true, true, false]);
    let mut mask = vec![false, false, false, false, true];
    douglas_peucker_iterative(&x, &[0, 1, 2, 3, 4], 1, &mut mask);
    assert_eq!(mask, vec![false, false, false, false, true]);
}

fn limbs(d: trajectory_core::wide::U192) -> (u64, u64, u64) {
    (d.lo, d.mid, d.hi)
}

#[test]
fn distance_to_a_horizontal_chord() {
    assert_eq!(limbs(perpendicular_distance_squared(0, 5, 0, 0, 10, 0)), (25, 0, 0));
}

#[test]
fn distance_is_rounded_down() {
    // area = 1, chord length squared = 2: 1 / 2 rounds down to 0.
    assert_eq!(limbs(perpendicular_distance_squared(1, 0, 0, 0, 1, 1)), (0, 0, 0));
    // area^2 = 196, chord length squared = 5: 39.2 rounds down to 39.
    assert_eq!(limbs(perpendicular_distance_squared(0, 7, 0, 0, 2, 1)), (39, 0, 0));
}

#[test]
fn distance_to_a_chord_of_zero_length() {
    assert_eq!(limbs(perpendicular_distance_squared(3, 4, 0, 0, 0, 0)), (25, 0, 0));
    assert_eq!(
        limbs(perpendicular_distance_squared(3, 4, i64::MIN, i64::MIN, i64::MIN, i64::MIN)),
        (25, 9223372036854775815, 0)
    );
    assert_eq!(
        limbs(perpendicular_distance_squared(
            i64::MAX,
            i64::MAX,
            i64::MIN,
            i64::MIN,
            i64::MIN,
            i64::MIN
        )),
        (2, 18446744073709551612, 1)
    );
}

#[test]
fn distance_at_the_edge_of_the_narrow_path() {
    assert_eq!(
        limbs(perpendicular_distance_squared(2147483647, 7, 0, 0, 3, 2147483647)),
        (4611686014132420558, 0, 0)
    );
    assert_eq!(
        limbs(perpendicular_distance_squared(2147483648, 0, 0, 0, 0, 2147483648)),
        (4611686018427387904, 0, 0)
    );
}

#[test]
fn distance_with_extreme_coordinates() {
    assert_eq!(
        limbs(perpendicular_distance_squared(
            i64::MAX,
            i64::MIN,
            i64::MIN,
            i64::MIN,
            i64::MAX,
            i64::MAX
        )),
        (0, 9223372036854775807, 0)
    );
    assert_eq!(
        limbs(perpendicular_distance_squared(0, 0, i64::MIN, i64::MAX, i64::MAX, i64::MIN)),
        (0, 0, 0)
    );
    assert_eq!(
        limbs(perpendicular_distance_squared(1, 0, i64::MIN, i64::MAX, i64::MAX, i64::MIN)),
        (2, 0, 0)
    );
    assert_eq!(
        limbs(perpendicular_distance_squared(
            12345678901,
            -98765432109,
            i64::MIN,
            5,
            i64::MAX,
            -7
        )),
        (14729708561314068829, 528, 0)
    );
}

fn distance_by_hand(px: i128, py: i128, sx: i128, sy: i128, ex: i128, ey: i128) -> i128 {
    let dx = ex - sx;
    let dy = ey - sy;
    if dx == 0 && dy == 0 {
        (px - sx) * (px - sx) + (py - sy) * (py - sy)
    } else {
        let area = dx * (sy - py) - (sx - px) * dy;
        (area * area) / (dx * dx + dy * dy)
    }
}

fn refine_by_hand(x: &[i64], y: &[i64], eps: i64, s: usize, e: usize, mask: &mut [bool]) {
    if e - s <= 1 {
        return;
    }
    let mut best = 0;
    let mut at = s;
    for i in s + 1..e {
        let d = distance_by_hand(
            x[i] as i128,
            y[i] as i128,
            x[s] as i128,
            y[s] as i128,
            x[e] as i128,
            y[e] as i128,
        );
        if d > best {
            best = d;
            at = i;
        }
    }
    if best > (eps as i128) * (eps as i128) {
        mask[at] = true;
        refine_by_hand(x, y, eps, s, at, mask);
        refine_by_hand(x, y, eps, at, e, mask);
    }
}

fn walk(seed: &mut u64, len: usize, step: i64) -> Vec<i64> {
    let mut out = Vec::with_capacity(len);
    let mut at: i64 = 0;
    for _ in 0..len {
        *seed = seed.wrapping_mul(6364136223846793005).wrapping_add(1442695040888963407);
        at += ((*seed >> 33) as i64 % (2 * step + 1)) - step;
        out.push(at);
    }
    out
}

#[test]
fn simplify_agrees_with_the_recursive_definition() {
    let mut seed: u64 = 42;
    for (len, step, eps) in [(3, 5, 1), (10, 5, 2), (64, 20, 15), (200, 1000, 900), (500, 50, 60)] {
        for _ in 0..5 {
            let x = walk(&mut seed, len, step);
            let y = walk(&mut seed, len, step);
            let mut expected = vec![false; len];
            expected[0] = true;
            expected[len - 1] = true;
            refine_by_hand(&x, &y, eps, 0, len - 1, &mut expected);
            assert_eq!(simplify(&x, &y, eps).unwrap(), expected);
        }
    }
}

#[test]
fn simplify_is_idempotent_on_random_walks() {
    let mut seed: u64 = 7;
    for (len, step, eps) in [(50, 10, 8), (300, 100, 150), (300, 100, 0), (1000, 3, 4)] {
        let x = walk(&mut seed, len, step);
        let y = walk(&mut seed, len, step);
        let mask = simplify(&x, &y, eps).unwrap();
        assert_eq!(mask.len(), len);
        assert!(mask[0] && mask[len - 1]);
        let kept_x = filter(&x, &mask).unwrap();
        let kept_y = filter(&y, &mask).unwrap();
        assert_eq!(
            simplify(&kept_x, &kept_y, eps).unwrap(),
            vec![true; kept_x.len()]
        );
    }
}

#[test]
fn narrow_and_wide_paths_agree() {
    // Coordinates within 1.2e9 of zero differ by up to 2.4e9: some chords
    // take the path for short differences and some the other, while a
    // computation in 128 bits still holds every intermediate value.
    let mut seed: u64 = 99;
    let mut wide = 0;
    for _ in 0..2000 {
        let mut c = [0i64; 6];
        for v in c.iter_mut() {
            seed = seed.wrapping_mul(6364136223846793005).wrapping_add(1442695040888963407);
            *v = ((seed >> 32) as i64 % 2_400_000_001) - 1_200_000_000;
        }
        let expected = distance_by_hand(
            c[0] as i128,
            c[1] as i128,
            c[2] as i128,
            c[3] as i128,
            c[4] as i128,
            c[5] as i128,
        );
        if (c[4] - c[2]).abs() >= 1 << 31 || (c[0] - c[2]).abs() >= 1 << 31 {
            wide += 1;
        }
        let d = perpendicular_distance_squared(c[0], c[1], c[2], c[3], c[4], c[5]);
        assert_eq!(d.hi, 0);
        assert_eq!(((d.mid as u128) << 64) | d.lo as u128, expected as u128);
    }
    assert!(wide > 0 && wide < 2000);
}
