use dystonse_gtfs_data::curves::{make_curve, place_markers, sort_samples, Frac};

fn frac_is(f: Frac, num: i128, den: i128) -> bool {
    f.num * den == num * f.den
}

/// The unweighted cumulative curve over the sample list of the
/// specification: it passes through (-60, 0) and (120, 1), and reads
/// 0.625 at 0.
#[test]
fn unweighted_curve_matches_the_expected_points() {
    let samples: Vec<i64> = vec![-60, -60, 0, 0, 0, 60, 60, 120];
    let (curve, weight) = make_curve(&samples, None).unwrap();
    assert_eq!(curve.xs, vec![-60, 0, 60, 120]);
    assert_eq!(curve.cums, vec![0, 5, 7, 8]);
    assert_eq!(curve.total, 8);
    assert!(frac_is(weight, 8, 1));

    assert!(frac_is(curve.y_at_x(-60), 0, 1));
    assert!(frac_is(curve.y_at_x(120), 1, 1));
    // 0.625 = 5/8
    assert!(frac_is(curve.y_at_x(0), 5, 8));
}

#[test]
fn interpolation_is_linear_between_points() {
    let samples: Vec<i64> = vec![0, 10];
    let (curve, _) = make_curve(&samples, None).unwrap();
    // Half way between the two points the curve reads one half.
    assert!(frac_is(curve.y_at_x(5), 1, 2));
}

#[test]
fn quantile_lookup_inverts_the_probability_at_samples() {
    let samples: Vec<i64> = vec![-60, -60, 0, 0, 0, 60, 60, 120];
    let (curve, _) = make_curve(&samples, None).unwrap();
    for &x in &[-60i64, 0, 60, 120] {
        let y = curve.y_at_x(x);
        let back = curve.x_at_y(y);
        assert!(frac_is(back, x as i128, 1), "round trip at {}", x);
    }
}

#[test]
fn fewer_than_two_distinct_points_gives_no_curve() {
    assert!(make_curve(&vec![], None).is_none());
    assert!(make_curve(&vec![5, 5, 5], None).is_none());
}

/// The focused triangular kernel weights the focus fully and the extremes
/// not at all.
#[test]
fn focused_curve_drops_the_extremes() {
    let samples: Vec<i64> = vec![0, 50, 100];
    let (curve, weight) = make_curve(&samples, Some(50)).unwrap();
    // Scaled weights: 0 at both ends, 50 * 50 at the focus.
    assert_eq!(curve.total, 2500);
    assert!(frac_is(weight, 2500, 2500));
    assert_eq!(curve.xs, vec![0, 50, 100]);
    assert_eq!(curve.cums, vec![0, 2500, 2500]);
}

/// Dropping collinear interior points leaves only the end points.
#[test]
fn simplify_removes_collinear_points() {
    let samples: Vec<i64> = (0..1000).collect();
    let (curve, _) = make_curve(&samples, None).unwrap();
    assert_eq!(curve.xs.len(), 1000);
    let simplified = curve.simplify(Frac { num: 1, den: 1000 });
    assert_eq!(simplified.xs.len(), 2);
    assert_eq!(simplified.xs, vec![0, 999]);
    assert_eq!(simplified.cums, vec![0, 1000]);
}

/// A kink well above the tolerance survives simplification.
#[test]
fn simplify_keeps_significant_points() {
    let samples: Vec<i64> = vec![0, 6, 6, 6, 12];
    let (curve, _) = make_curve(&samples, None).unwrap();
    let simplified = curve.simplify(Frac { num: 1, den: 1000 });
    assert_eq!(simplified.xs, vec![0, 6, 12]);
}

/// Marker recursion termination: thirty samples between the extremes
/// leave no room for more than one interior marker.
#[test]
fn sparse_samples_get_at_most_one_interior_marker() {
    // 30 samples spread over a wide range.
    let mut samples: Vec<i64> = Vec::new();
    for i in 0..30i64 {
        samples.push(i * 100);
    }
    let sorted = sort_samples(&samples);
    let markers = place_markers(&sorted);
    // Doubled extremes plus at most one interior marker.
    assert!(markers.len() <= 5);
    assert_eq!(markers.len(), 4, "thirty samples allow no interior marker");
}

/// With enough samples exactly one marker fits, and the spacing law holds.
#[test]
fn marker_spacing_holds_for_a_dense_run() {
    let samples: Vec<i64> = (0..50).collect();
    let sorted = sort_samples(&samples);
    let markers = place_markers(&sorted);
    assert_eq!(markers.first(), Some(&0));
    assert_eq!(markers.last(), Some(&49));
    // Adjacent distinct markers: at least 20 seconds and 20 samples apart.
    let mut uniq: Vec<i64> = Vec::new();
    for &m in &markers {
        if uniq.last() != Some(&m) {
            uniq.push(m);
        }
    }
    assert!(uniq.len() >= 3, "one interior marker expected");
    for w in uniq.windows(2) {
        let (a, b) = (w[0], w[1]);
        assert!(b - a >= 20);
        let count = sorted.iter().filter(|&&v| a <= v && v <= b).count();
        assert!(count >= 20);
    }
}

#[test]
fn sorting_orders_the_samples() {
    let samples: Vec<i64> = vec![5, -3, 9, -3, 0];
    assert_eq!(sort_samples(&samples), vec![-3, -3, 0, 5, 9]);
}
