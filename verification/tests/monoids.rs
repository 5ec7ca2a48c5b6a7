use std::cmp::Ordering::{self, Equal, Greater, Less};
use std::collections::VecDeque;

use gat::Monoid;

#[test]
fn unit_associate() {
    let x = ();
    let y = x.associate(&());

    assert_eq!((), y);
}

#[test]
fn unit_mfold() {
    let x = [(), (), ()];

    let test = Monoid::mfold(&x);

    assert_eq!((), test);
}

#[test]
fn ordering_associate() {
    let case1 = Equal;
    let case2 = Less;
    let case3 = Greater;

    assert_eq!(Equal, case1.associate(&Equal));
    assert_eq!(Less, case1.associate(&Less));
    assert_eq!(Greater, case1.associate(&Greater));

    assert_eq!(Less, case2.associate(&Equal));
    assert_eq!(Less, case2.associate(&Less));
    assert_eq!(Less, case2.associate(&Greater));

    assert_eq!(Greater, case3.associate(&Equal));
    assert_eq!(Greater, case3.associate(&Less));
    assert_eq!(Greater, case3.associate(&Greater));
}

#[test]
fn ordering_mfold() {
    let case1 = [Equal, Equal, Equal];
    let case2 = [Equal, Equal, Less];
    let case3 = [Equal, Greater, Equal];

    assert_eq!(Equal, Monoid::mfold(&case1));
    assert_eq!(Less, Monoid::mfold(&case2));
    assert_eq!(Greater, Monoid::mfold(&case3));
}

#[test]
fn option_associate() {
    let case1: Option<Ordering> = None;
    let case2 = Some(Equal);

    assert_eq!(Some(Equal), case1.associate(&Some(Equal)));
    assert_eq!(Some(Less), case2.associate(&Some(Less)));
}

#[test]
fn option_mfold() {
    let case1: [Option<Ordering>; 3] = [None, None, None];
    let case2 = [Some(Less), Some(Equal), None];

    assert_eq!(None, Monoid::mfold(&case1));
    assert_eq!(Some(Less), Monoid::mfold(&case2));
}

#[test]
fn vec_associate() {
    let case1: Vec<u16> = Vec::new();
    let case2 = vec![1, 2];

    assert_eq!(vec![1], case1.associate(&vec![1]));
    assert_eq!(vec![1, 2, 3, 4], case2.associate(&vec![3, 4]));
}

#[test]
fn vec_mfold() {
    let case1 = [vec![1], vec![2], vec![3]];
    let case2: [Vec<u8>; 3] = [vec![], vec![], vec![]];

    assert!(Monoid::mfold(&case2).is_empty());
    assert_eq!(vec![1, 2, 3], Monoid::mfold(&case1));
}

#[test]
fn linked_list_associate() {
    let case1: VecDeque<u16> = VecDeque::new();
    let case2 = VecDeque::from(vec![1, 2]);

    assert_eq!(VecDeque::from(vec![1]), case1.associate(&VecDeque::from(vec![1])));
    assert_eq!(VecDeque::from(vec![1, 2, 3, 4]), case2.associate(&VecDeque::from(vec![3, 4])));
}

#[test]
fn linked_list_mfold() {
    let case1 = [
        VecDeque::from(vec![1]),
        VecDeque::from(vec![2]),
        VecDeque::from(vec![3]),
    ];
    let case2: [VecDeque<u8>; 3] = [VecDeque::new(), VecDeque::new(), VecDeque::new()];

    assert!(Monoid::mfold(&case2).is_empty());
    assert_eq!(VecDeque::from(vec![1, 2, 3]), Monoid::mfold(&case1));
}

#[test]
fn ordering_mfold_empty() {
    let empty: [Ordering; 0] = [];

    assert_eq!(Equal, Monoid::mfold(&empty));
}

#[test]
fn ordering_first_decision_wins() {
    let case = [Equal, Less, Greater];

    assert_eq!(Less, Monoid::mfold(&case));
}

#[test]
fn option_associate_keeps_left() {
    let case: Option<Ordering> = Some(Greater);

    assert_eq!(Some(Greater), case.associate(&None));
}

#[test]
fn vec_associate_identity_sides() {
    let case = vec![7u16, 8];
    let empty: Vec<u16> = Vec::new();

    assert_eq!(vec![7, 8], case.clone().associate(&empty));
    assert_eq!(vec![7, 8], empty.associate(&case));
}

#[test]
fn vec_associate_is_associative() {
    let a = vec![1u8];
    let b = vec![2u8, 3];
    let c = vec![4u8];

    let left_first = a.clone().associate(&b).associate(&c);
    let right_first = a.associate(&b.associate(&c));
    assert_eq!(left_first, right_first);
}

#[test]
fn vec_duplicate_equals_itself() {
    let case = vec![1u16, 2, 3];

    assert_eq!(case, case.duplicate());
}

#[test]
fn ordering_identity_value_is_equal() {
    assert_eq!(Equal, Ordering::identity_value());
}

#[test]
fn option_of_vec_mfold() {
    let case = [Some(vec![1u8]), None, Some(vec![2u8, 3])];

    assert_eq!(Some(vec![1u8, 2, 3]), Monoid::mfold(&case));
}
