use rustdoc_prettier::parallelism::{
    decrement_used_parallelism, lock_used_parallelism_for_incrementing, parallelism_bound,
    UsedParallelism,
};

#[test]
fn bound_is_one_less_than_available_but_at_least_one() {
    assert_eq!(1, parallelism_bound(0));
    assert_eq!(1, parallelism_bound(1));
    assert_eq!(1, parallelism_bound(2));
    assert_eq!(7, parallelism_bound(8));
}

#[test]
fn slots_never_exceed_bound() {
    let mut p = UsedParallelism::new(2);
    assert!(lock_used_parallelism_for_incrementing(&mut p));
    assert!(lock_used_parallelism_for_incrementing(&mut p));
    assert!(!lock_used_parallelism_for_incrementing(&mut p));
    assert_eq!(2, p.used());
    decrement_used_parallelism(&mut p);
    assert_eq!(1, p.used());
    assert!(lock_used_parallelism_for_incrementing(&mut p));
    assert_eq!(2, p.used());
}

#[test]
fn zero_bound_is_raised_to_one() {
    let mut p = UsedParallelism::new(0);
    assert_eq!(1, p.limit());
    assert!(lock_used_parallelism_for_incrementing(&mut p));
    assert!(!lock_used_parallelism_for_incrementing(&mut p));
}
