//! Permutation tests.

use mercury::Perm;

#[test]
fn identity_applies_as_noop() {
    let p = Perm::identity(3);
    assert_eq!(p.len(), 3);
    assert!(!p.is_empty());
    let v = vec![1.0, 2.0, 3.0];
    assert_eq!(p.apply(&v), v);
    assert_eq!(p.apply_inverse(&v), v);
    assert_eq!(p.sign(), 1);
}

#[test]
fn swap_permutes_and_inverse_round_trips() {
    let mut p = Perm::identity(3);
    p.swap(0, 2); // perm = [2, 1, 0]
    let v = vec![10.0, 20.0, 30.0];
    // (Pv)[i] = v[perm[i]]
    let pv = p.apply(&v);
    assert_eq!(pv, vec![30.0, 20.0, 10.0]);
    // apply_inverse undoes apply
    assert_eq!(p.apply_inverse(&pv), v);
}

#[test]
fn sign_tracks_transposition_parity() {
    let mut p = Perm::identity(4);
    assert_eq!(p.sign(), 1);
    p.swap(0, 1);
    assert_eq!(p.sign(), -1);
    p.swap(2, 3);
    assert_eq!(p.sign(), 1);
    p.swap(1, 1); // self-swap is a no-op, parity unchanged
    assert_eq!(p.sign(), 1);
}

#[test]
fn empty_permutation_has_no_elements() {
    let p = Perm::identity(0);
    assert!(p.is_empty());
    assert_eq!(p.len(), 0);
    let empty: Vec<u32> = Vec::new();
    assert_eq!(p.apply(&empty), empty);
}

#[test]
fn apply_undoes_apply_inverse() {
    let mut p = Perm::identity(4);
    p.swap(0, 3);
    p.swap(1, 3);
    let v = vec![1u8, 2, 3, 4];
    let w = p.apply_inverse(&v);
    assert_eq!(w, vec![2, 4, 3, 1]);
    assert_eq!(p.apply(&w), v);
}

#[test]
fn swapping_twice_restores_the_ordering() {
    let mut p = Perm::identity(3);
    p.swap(0, 2);
    p.swap(0, 2);
    assert_eq!(p, Perm::identity(3));
    assert_eq!(p.sign(), 1);
}

#[test]
fn sign_is_the_parity_of_inversions() {
    // Two transpositions give the cycle [2, 0, 1], with two inversions.
    let mut p = Perm::identity(3);
    p.swap(0, 2);
    p.swap(1, 2);
    assert_eq!(p.apply(&[0usize, 1, 2]), vec![2, 0, 1]);
    assert_eq!(p.sign(), 1);
    // A third transposition gives [1, 0, 2], with one inversion.
    p.swap(0, 1);
    p.swap(0, 2);
    p.swap(1, 2);
    assert_eq!(p.apply(&[0usize, 1, 2]), vec![1, 0, 2]);
    assert_eq!(p.sign(), -1);
}
