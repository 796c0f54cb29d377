use hansen::cantor;
use hansen::inv_cantor;

#[test]
fn test_cantor() {
    let test_a = 12222;
    let test_b = 7;
    let c = cantor(test_a, test_b);
    let (a, b) = inv_cantor(c);
    assert_eq!(a, test_a);
    assert_eq!(b, test_b);
}

#[test]
fn test_cantor_small_pairs() {
    for a in 0..20u64 {
        for b in 0..20u64 {
            let c = cantor(a, b);
            assert_eq!(inv_cantor(c), (a, b));
        }
    }
}

#[test]
fn test_cantor_known_value() {
    // triangle(0 + 1) + 0 = 1
    assert_eq!(cantor(0, 1), 1);
    // triangle(3 + 4) + 3 = 28 + 3
    assert_eq!(cantor(3, 4), 31);
}

#[test]
fn test_cantor_largest_ids() {
    let a = 1_999_999_999u64;
    let b = 2_000_000_000u64;
    let c = cantor(a, b);
    assert_eq!(inv_cantor(c), (a, b));
}

#[test]
fn test_inv_cantor_zero() {
    assert_eq!(inv_cantor(0), (0, 0));
}
