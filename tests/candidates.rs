use sudoku::Candidates;

#[test]
fn is_empty() {
    let candidates = Candidates::empty();
    assert!(candidates.is_empty());
}

#[test]
fn all_candidates_set() {
    let candidates = Candidates::all();
    assert!(!candidates.is_empty());
    assert_eq!(9, candidates.count());
}

#[test]
fn from_candidates() {
    let candidates = Candidates::from(0b0110011);
    assert!(!candidates.is_empty());
    assert_eq!(4, candidates.count());
}

#[test]
fn set_single_candidate() {
    let mut candidates = Candidates::empty();
    candidates.set(4);
    assert!(!candidates.is_empty());
    assert!(candidates.get(4));
    assert_eq!(1, candidates.count());
}

#[test]
fn unset_single_candidate() {
    let mut candidates = Candidates::from(0b000111000);
    candidates.unset(5);
    assert!(!candidates.is_empty());
    assert_eq!(2, candidates.count());
    assert_eq!(vec![4, 6], candidates.iter());
}

#[test]
fn unset_same_bit_multiple_times() {
    let mut candidates = Candidates::from(0b000111000);
    candidates.unset(5);
    candidates.unset(5);
    assert!(!candidates.is_empty());
    assert_eq!(2, candidates.count());
    assert_eq!(vec![4, 6], candidates.iter());
}

#[test]
fn set_multiple_candidates() {
    let mut candidates = Candidates::empty();
    candidates.set(1);
    candidates.set(3);
    candidates.set(9);

    assert_eq!(3, candidates.count());
    assert!(candidates.get(3));
    assert!(!candidates.get(4));
}

#[test]
fn candidates_iter() {
    let mut candidates = Candidates::empty();
    candidates.set(1);
    candidates.set(3);
    candidates.set(9);

    assert_eq!(vec![1, 3, 9], candidates.iter());
}

#[test]
fn intersect_candidates() {
    let lhs = Candidates::from(0b101101);
    let rhs = Candidates::from(0b011100);

    let result = Candidates::intersect(&lhs, &rhs);
    assert_eq!(2, result.count());
    assert_eq!(vec![3, 4], result.iter());
}

#[test]
fn candidates_or() {
    let lhs = Candidates::from(0b111000);
    let rhs = Candidates::from(0b011010);

    let result = Candidates::union(&lhs, &rhs);
    assert_eq!(4, result.count());
    assert_eq!(vec![2, 4, 5, 6], result.iter());
}

#[test]
fn test_candidates_count() {
    let mut candidates = Candidates::empty();
    assert_eq!(0, candidates.count());

    candidates.set(1);
    candidates.set(1);
    candidates.set(2);
    assert_eq!(2, candidates.count());
}

#[test]
fn test_candidates_iterator() {
    let mut candidates = Candidates::empty();
    candidates.set(1);
    candidates.set(4);
    candidates.set(6);

    assert_eq!(vec![1, 4, 6], candidates.iter());
}

#[test]
fn from_drops_bits_above_nine() {
    let candidates = Candidates::from(0b1111_1110_0000_0001);
    assert_eq!(1, candidates.count());
    assert_eq!(vec![1], candidates.iter());
    assert_eq!(Candidates::new(&[1]), candidates);
}

#[test]
fn new_and_single_sets() {
    let candidates = Candidates::new(&[9, 2, 2, 5]);
    assert_eq!(vec![2, 5, 9], candidates.iter());
    assert_eq!(vec![7], Candidates::single(7).iter());
    assert_eq!(Candidates::empty(), Candidates::new(&[]));
}

#[test]
fn difference_of_candidates() {
    let lhs = Candidates::from(0b111000);
    let rhs = Candidates::from(0b011010);

    let result = Candidates::difference(&lhs, &rhs);
    assert_eq!(vec![6], result.iter());
    assert_eq!(vec![2], Candidates::difference(&rhs, &lhs).iter());
}
