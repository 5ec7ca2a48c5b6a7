use std::collections::VecDeque;

use gat::{Applicative, Monad};

#[test]
fn option_bind() {
    let case1: Option<u32> = None;
    let case2 = Some(10);
    let func = |x| Some(x + 1);

    assert!(!case1.bind(Option::pure).is_some());
    assert_eq!(Some(10), case2.bind(Option::pure));
    assert_eq!(Some(11), case2.bind(func));
}

#[test]
fn result_bind() {
    let case1: Result<u32, &str> = Err("str");
    let case2: Result<u32, &str> = Ok(10);
    let func = |x| Ok(x + 1);

    assert_eq!(Err("str"), case1.bind(Result::pure));
    assert_eq!(Ok(10), case2.bind(Result::pure));
    assert_eq!(Err("str"), case1.bind(func));
    assert_eq!(Ok(11), case2.bind(func));
}

#[test]
fn vec_bind() {
    let case1: Vec<u32> = Vec::new();
    let case2 = vec![1, 2, 3];
    let case3 = vec![1, 2, 3];
    let func = |x| vec![x + 1];

    assert!(case1.bind(Vec::pure).is_empty());
    assert_eq!(vec![1, 2, 3], case2.bind(Vec::pure));
    assert_eq!(vec![2, 3, 4], case3.bind(func));
}

#[test]
fn linked_list_bind() {
    let case1: VecDeque<u32> = VecDeque::new();
    let case2 = VecDeque::from(vec![1, 2, 3]);
    let case3 = VecDeque::from(vec![1, 2, 3]);
    let func = |x| VecDeque::from(vec![x + 1]);

    assert!(case1.bind(VecDeque::pure).is_empty());
    assert_eq!(VecDeque::from(vec![1, 2, 3]), case2.bind(VecDeque::pure));
    assert_eq!(VecDeque::from(vec![2, 3, 4]), case3.bind(func));
}

#[test]
fn vec_bind_flattens_in_order() {
    let case = vec![1, 2];
    let func = |x: i32| vec![x, x * 10];

    assert_eq!(vec![1, 10, 2, 20], case.bind(func));
}

#[test]
fn vec_bind_drops_empty_outputs() {
    let case = vec![1, 2, 3];
    let func = |x: i32| if x % 2 == 0 { vec![x] } else { Vec::new() };

    assert_eq!(vec![2], case.bind(func));
}

#[test]
fn option_bind_can_fail() {
    let case = Some(10u32);
    let func = |_x: u32| -> Option<u32> { None };

    assert_eq!(None, case.bind(func));
}

#[test]
fn result_bind_can_fail() {
    let case: Result<u32, &str> = Ok(10);
    let func = |_x: u32| -> Result<u32, &str> { Err("downstream") };

    assert_eq!(Err("downstream"), case.bind(func));
}
