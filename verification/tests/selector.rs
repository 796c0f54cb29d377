use hansen::Solution;
use hansen::TopK;

fn sol(mix_id: u64, drug_id: u64, distance: u64) -> Solution {
    Solution { mix_id, drug_id, distance }
}

fn distances(v: &[Solution]) -> Vec<u64> {
    v.iter().map(|s| s.distance).collect()
}

#[test]
fn test_finalize_returns_sorted_smallest() {
    let mut t = TopK::new(100);
    for d in [50u64, 10, 40, 30, 20] {
        t.push(sol(d, 1, d));
    }
    let top = t.finalize(3);
    assert_eq!(distances(&top), vec![10, 20, 30]);
}

#[test]
fn test_finalize_shorter_than_n() {
    let mut t = TopK::new(100);
    t.push(sol(1, 1, 7));
    let top = t.finalize(5);
    assert_eq!(distances(&top), vec![7]);
}

#[test]
fn test_insertion_order_does_not_matter() {
    // the same candidates in several insertion orders, with a tiny initial
    // capacity so the buffer is cut and doubled along the way
    let base: Vec<u64> = vec![90, 15, 73, 15, 4, 88, 61, 2, 99, 34, 27, 50, 11, 42, 8];
    let mut orders: Vec<Vec<u64>> = Vec::new();
    orders.push(base.clone());
    let mut rev = base.clone();
    rev.reverse();
    orders.push(rev);
    let mut rotated = base.clone();
    rotated.rotate_left(7);
    orders.push(rotated);
    let mut sorted = base.clone();
    sorted.sort();
    orders.push(sorted.clone());

    // offline reference: full sort, then take the first n
    let expected: Vec<u64> = sorted.iter().take(4).cloned().collect();

    for order in orders {
        let mut t = TopK::new(4);
        for d in &order {
            t.push(sol(*d, 1, *d));
        }
        let top = t.finalize(4);
        assert_eq!(distances(&top), expected);
    }
}

#[test]
fn test_capacity_growth_keeps_smallest() {
    // many more candidates than the initial capacity
    let mut t = TopK::new(2);
    for d in (1..=100u64).rev() {
        t.push(sol(d, 1, d));
    }
    let top = t.finalize(2);
    assert_eq!(distances(&top), vec![1, 2]);
}
