use hansen::Drug;
use hansen::Solvent;
use hansen::mix_solver;
use hansen::geom::SCALE;

fn fp(units: f64) -> i64 {
    (units * SCALE as f64).round() as i64
}

fn fixtures() -> (Solvent, Solvent, Drug) {
    let a = Solvent {
        id: 1,
        solvent: "solvent1".to_string(),
        d_d: fp(1.0),
        d_p: fp(2.0),
        d_h: fp(3.0),
    };
    let b = Solvent {
        id: 2,
        solvent: "solvent2".to_string(),
        d_d: fp(4.0),
        d_p: fp(5.0),
        d_h: fp(6.0),
    };
    let drug = Drug {
        id: 1,
        drug: "drug".to_string(),
        d_d: fp(7.0),
        d_p: fp(8.0),
        d_h: fp(9.0),
    };
    (a, b, drug)
}

#[test]
fn test_mix_solver_a() {
    let (a, b, drug) = fixtures();
    let dist = fp(5.7157) as u64;
    let (r_a, r_b) = mix_solver(&a, &b, &drug, dist).unwrap();
    assert_eq!(r_a, 10, "Expected r_a to be 0.1");
    assert_eq!(r_b, 90, "Expected r_b to be 0.9");
}

#[test]
fn test_mix_solver_b() {
    let (a, b, drug) = fixtures();
    let dist = fp(6.02) as u64;
    let (r_a, r_b) = mix_solver(&a, &b, &drug, dist).unwrap();
    assert!((r_a as f64 / 100.0 - 0.16).abs() < 0.001);
    assert!((r_b as f64 / 100.0 - 0.84).abs() < 0.001);
}

#[test]
fn test_mix_solver_exact_midpoint() {
    // drug sits exactly on the blend at equal parts, target distance zero
    let a = Solvent {
        id: 1,
        solvent: "a".to_string(),
        d_d: fp(0.0),
        d_p: fp(0.0),
        d_h: fp(0.0),
    };
    let b = Solvent {
        id: 2,
        solvent: "b".to_string(),
        d_d: fp(10.0),
        d_p: fp(0.0),
        d_h: fp(0.0),
    };
    let drug = Drug {
        id: 3,
        drug: "d".to_string(),
        d_d: fp(5.0),
        d_p: fp(0.0),
        d_h: fp(0.0),
    };
    let (r_a, r_b) = mix_solver(&a, &b, &drug, 0).unwrap();
    assert_eq!((r_a, r_b), (50, 50));
}

#[test]
fn test_mix_solver_prefers_larger_ratio_on_ties() {
    // two solvents at the same point: every ratio misses the target equally,
    // so the largest admissible ratio of the first solvent wins
    let a = Solvent {
        id: 1,
        solvent: "a".to_string(),
        d_d: fp(1.0),
        d_p: fp(1.0),
        d_h: fp(1.0),
    };
    let b = Solvent {
        id: 2,
        solvent: "b".to_string(),
        d_d: fp(1.0),
        d_p: fp(1.0),
        d_h: fp(1.0),
    };
    let drug = Drug {
        id: 3,
        drug: "d".to_string(),
        d_d: fp(1.0),
        d_p: fp(1.0),
        d_h: fp(1.0),
    };
    let (r_a, r_b) = mix_solver(&a, &b, &drug, 0).unwrap();
    assert_eq!((r_a, r_b), (90, 10));
}
