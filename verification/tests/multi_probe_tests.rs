use lsh_rs::multi_probe::{create_hash_permutation, step_wise_perturb, step_wise_probing};

#[test]
fn test_step_wise_perturb() {
    let a = step_wise_perturb(4, 2, 2);
    assert_eq!(
        vec![vec![(0usize, 1i8), (1, 1)], vec![(0, 1), (2, 1)]],
        a
    );
}

#[test]
fn test_step_wise_probe() {
    let a = step_wise_probing(4, 20);
    assert_eq!(vec![1, 0, 0, 0], a[0]);
    assert_eq!(vec![0, 1, 0, -1], a[a.len() - 1]);
}

#[test]
fn test_permutation() {
    let permut = create_hash_permutation(5, 3);
    println!("{:?}", permut);
}

#[test]
fn step_wise_probe_budget_spent() {
    // K = 4, budget 20: eight single shifts, then twelve double shifts.
    let a = step_wise_probing(4, 20);
    assert_eq!(a.len(), 20);
    // The single-shift stage in candidate order: +1 on each index,
    // then -1 on the upper half's targets, twice each.
    assert_eq!(a[1], vec![0, 1, 0, 0]);
    assert_eq!(a[2], vec![0, 0, 1, 0]);
    assert_eq!(a[3], vec![0, 0, 0, 1]);
    assert_eq!(a[4], vec![0, 0, -1, 0]);
    assert_eq!(a[5], vec![0, 0, -1, 0]);
    assert_eq!(a[6], vec![0, 0, 0, -1]);
    assert_eq!(a[7], vec![0, 0, 0, -1]);
}

#[test]
fn step_wise_probe_small_budget() {
    let a = step_wise_probing(4, 2);
    assert_eq!(a, vec![vec![1, 0, 0, 0], vec![0, 1, 0, 0]]);
}

#[test]
fn step_wise_probe_zero_budget() {
    let a = step_wise_probing(4, 0);
    assert!(a.is_empty());
}

#[test]
fn permutation_shape() {
    let permut = create_hash_permutation(9, 4);
    assert_eq!(permut.len(), 9);
    let nonzero = permut.iter().filter(|&&x| x != 0).count();
    assert_eq!(nonzero, 4);
    assert!(permut.iter().all(|&x| -1 <= x && x <= 1));
}
