use hansen::Drug;
use hansen::Solvent;
use hansen::Vec3;
use hansen::distance;
use hansen::line_segment;
use hansen::mixture;
use hansen::standard_dist;
use hansen::geom::SCALE;

fn fp(units: f64) -> i64 {
    (units * SCALE as f64).round() as i64
}

fn as_units(fixed: u64) -> f64 {
    fixed as f64 / SCALE as f64
}

#[test]
fn test_standard_dist() {
    let point_a = (fp(1.0), fp(1.0), fp(1.0));
    let point_b = (fp(2.0), fp(2.0), fp(2.0));
    let dist = standard_dist(point_a.0, point_a.1, point_a.2, point_b.0, point_b.1, point_b.2);
    assert!((as_units(dist) - 1.732).abs() < 0.001);
}

#[test]
fn test_dist_a() {
    let start = Vec3 { x: fp(2.0), y: fp(2.0), z: fp(2.0) };
    let end = Vec3 { x: fp(3.0), y: fp(3.0), z: fp(3.0) };
    let test_drug = Drug {
        id: 1,
        drug: "test_drug".to_string(),
        d_d: fp(1.0),
        d_p: fp(1.0),
        d_h: fp(1.0),
    };
    let d = distance(&test_drug, &start, &end);
    assert!((as_units(d) - 1.73205).abs() < 0.001);
}

#[test]
fn test_dist_b() {
    let start = Vec3 { x: fp(2.0), y: fp(2.0), z: fp(2.0) };
    let end = Vec3 { x: fp(3.0), y: fp(3.0), z: fp(3.0) };
    let test_drug = Drug {
        id: 1,
        drug: "test_drug".to_string(),
        d_d: fp(5.0),
        d_p: fp(5.0),
        d_h: fp(5.0),
    };
    let d = distance(&test_drug, &start, &end);
    assert!((as_units(d) - 3.464102).abs() < 0.001);
}

#[test]
fn test_dist_c() {
    let start = Vec3 { x: fp(5.0), y: fp(2.0), z: fp(1.0) };
    let end = Vec3 { x: fp(3.0), y: fp(1.0), z: fp(-1.0) };
    let test_drug = Drug {
        id: 1,
        drug: "test_drug".to_string(),
        d_d: fp(0.0),
        d_p: fp(2.0),
        d_h: fp(3.0),
    };
    let d = distance(&test_drug, &start, &end);
    assert!((as_units(d) - 5.0).abs() < 0.001);
}

#[test]
fn test_mixture() {
    let a = Solvent {
        id: 1,
        solvent: "A".to_string(),
        d_d: fp(1.0),
        d_p: fp(2.0),
        d_h: fp(3.0),
    };
    let b = Solvent {
        id: 2,
        solvent: "B".to_string(),
        d_d: fp(4.0),
        d_p: fp(5.0),
        d_h: fp(6.0),
    };
    // ratio 0.6 of solvent A, in hundredths
    let result = mixture(&a, &b, 60);
    assert_eq!(result.solvent_a, "A".to_string());
    assert_eq!(result.solvent_b, "B".to_string());
    assert_eq!(result.ratio_a, 60);
    assert_eq!(result.ratio_b, 40);
    assert_eq!(result.sol_params.x, fp(2.2));
    assert_eq!(result.sol_params.y, fp(3.2));
    assert_eq!(result.sol_params.z, fp(4.2));
}

#[test]
fn test_mixture_endpoints() {
    // a blend that is all of one solvent has exactly that solvent's
    // coordinates
    let a = Solvent {
        id: 1,
        solvent: "A".to_string(),
        d_d: fp(1.3),
        d_p: fp(-2.7),
        d_h: fp(3.9),
    };
    let b = Solvent {
        id: 2,
        solvent: "B".to_string(),
        d_d: fp(4.1),
        d_p: fp(5.3),
        d_h: fp(-6.2),
    };
    let all_a = mixture(&a, &b, 100);
    assert_eq!(all_a.sol_params, Vec3 { x: a.d_d, y: a.d_p, z: a.d_h });
    let all_b = mixture(&a, &b, 0);
    assert_eq!(all_b.sol_params, Vec3 { x: b.d_d, y: b.d_p, z: b.d_h });
}

#[test]
fn test_mixture_ratios_sum() {
    let a = Solvent {
        id: 1,
        solvent: "A".to_string(),
        d_d: fp(1.0),
        d_p: fp(2.0),
        d_h: fp(3.0),
    };
    let b = Solvent {
        id: 2,
        solvent: "B".to_string(),
        d_d: fp(4.0),
        d_p: fp(5.0),
        d_h: fp(6.0),
    };
    for r in 0..=100u8 {
        let m = mixture(&a, &b, r);
        assert_eq!(m.ratio_a as u16 + m.ratio_b as u16, 100);
    }
}

#[test]
fn test_degenerate_segment_is_point_distance() {
    let p = Vec3 { x: fp(2.0), y: fp(2.0), z: fp(2.0) };
    let test_drug = Drug {
        id: 1,
        drug: "test_drug".to_string(),
        d_d: fp(1.0),
        d_p: fp(1.0),
        d_h: fp(1.0),
    };
    let seg = distance(&test_drug, &p, &p);
    let point = standard_dist(p.x, p.y, p.z, test_drug.d_d, test_drug.d_p, test_drug.d_h);
    assert_eq!(seg, point);
}

#[test]
fn test_interior_distance_is_floored_true_distance() {
    // compound at (-3, 4, 0) against the segment (0, 0, 0)-(1, 1, 0), in raw
    // counts: the projection falls inside, the true distance is 7/sqrt(2)
    // (about 4.95), and the result is its floor — not the quotient of the
    // two floored roots, which would give 7
    let start = Vec3 { x: 0, y: 0, z: 0 };
    let end = Vec3 { x: 1, y: 1, z: 0 };
    let test_drug = Drug { id: 1, drug: "test_drug".to_string(), d_d: -3, d_p: 4, d_h: 0 };
    let d = distance(&test_drug, &start, &end);
    assert_eq!(d, 4);
    // the segment distance never exceeds the distance to either endpoint
    let to_start = standard_dist(start.x, start.y, start.z, -3, 4, 0);
    let to_end = standard_dist(end.x, end.y, end.z, -3, 4, 0);
    assert_eq!(to_start, 5);
    assert_eq!(to_end, 5);
    assert!(d <= to_start && d <= to_end);
}

#[test]
fn test_segment_distance_bounded_by_endpoints() {
    // a short, nearly degenerate segment far from the compound: the interior
    // case must still stay at or below both endpoint distances
    let start = Vec3 { x: fp(10.0), y: fp(0.0), z: fp(0.0) };
    let end = Vec3 { x: fp(10.0), y: fp(0.001), z: fp(0.0) };
    let test_drug = Drug {
        id: 1,
        drug: "test_drug".to_string(),
        d_d: fp(0.0),
        d_p: fp(0.0005),
        d_h: fp(7.0),
    };
    let d = distance(&test_drug, &start, &end);
    let to_start = standard_dist(start.x, start.y, start.z, test_drug.d_d, test_drug.d_p, test_drug.d_h);
    let to_end = standard_dist(end.x, end.y, end.z, test_drug.d_d, test_drug.d_p, test_drug.d_h);
    assert!(d <= to_start && d <= to_end);
}

#[test]
fn test_line_segment_is_ninety_ten() {
    let a = Solvent {
        id: 1,
        solvent: "A".to_string(),
        d_d: fp(0.0),
        d_p: fp(0.0),
        d_h: fp(0.0),
    };
    let b = Solvent {
        id: 2,
        solvent: "B".to_string(),
        d_d: fp(10.0),
        d_p: fp(0.0),
        d_h: fp(0.0),
    };
    let (start, end) = line_segment(&a, &b);
    assert_eq!(start, mixture(&a, &b, 90).sol_params);
    assert_eq!(end, mixture(&a, &b, 10).sol_params);
    assert_eq!(start.x, fp(1.0));
    assert_eq!(end.x, fp(9.0));
}
