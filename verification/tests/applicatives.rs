use std::collections::VecDeque;

use gat::Applicative;

#[test]
fn option_pure() {
    assert_eq!(Some(5), Option::pure(5));
    assert_eq!(Some("Str"), Option::pure("Str"));
}

#[test]
fn option_lift() {
    let case1 = Some(5);

    let expect2: Option<Box<dyn Fn(u32) -> u32>> = None;
    assert_eq!(Some(6), case1.lift(Some(|x| x + 1)));
    assert!(!case1.lift(expect2).is_some());
}

#[test]
fn result_pure() {
    let expected1: Result<u32, u32> = Ok(1u32);
    let expected2: Result<&str, u32> = Ok("str");
    assert_eq!(expected1, Result::pure(1u32));
    assert_eq!(expected2, Result::pure("str"));
}

#[test]
fn result_lift() {
    let case1: Result<u32, &str> = Ok(1);
    let fs: Result<Box<dyn Fn(_) -> _>, &str> = Ok(Box::new(|x| x + 1));
    let fs2: Result<Box<dyn Fn(u32) -> u32>, &str> = Err("err");

    assert_eq!(Ok(2), case1.lift(fs));
    assert_eq!(Err("err"), case1.lift(fs2));
}

#[test]
fn vec_pure() {
    assert_eq!(vec![1], Vec::pure(1));
    assert_eq!(vec!["str"], Vec::pure("str"));
}

#[test]
fn vec_lift() {
    let case1 = vec![1, 2];
    let f1 = |x| x + 1;
    let vf = vec![f1];

    assert_eq!(vec![2, 3], case1.lift(vf));
}

#[test]
fn lkl_pure() {
    assert_eq!(VecDeque::from(vec![1]), VecDeque::pure(1));
    assert_eq!(VecDeque::from(vec!["str"]), VecDeque::pure("str"));
}

#[test]
fn lkl_lift() {
    let case1 = VecDeque::from(vec![1, 2]);
    let lklf = VecDeque::from(vec![|x| x + 1]);

    assert_eq!(VecDeque::from(vec![2, 3]), case1.lift(lklf));
}

#[test]
fn vec_lift_function_outer_order() {
    let values = vec![1, 2];
    let add_ten = |x: i32| x + 10;
    let mul_ten = |x: i32| x * 10;
    let fs: Vec<Box<dyn Fn(i32) -> i32>> = vec![Box::new(add_ten), Box::new(mul_ten)];

    assert_eq!(vec![11, 12, 10, 20], values.lift(fs));
}

#[test]
fn vec_lift_empty_functions() {
    let values = vec![1, 2, 3];
    let fs: Vec<Box<dyn Fn(i32) -> i32>> = Vec::new();

    assert!(values.lift(fs).is_empty());
}

#[test]
fn result_lift_value_failure() {
    let case: Result<u32, &str> = Err("bad value");
    let fs: Result<Box<dyn Fn(u32) -> u32>, &str> = Ok(Box::new(|x| x + 1));

    assert_eq!(Err("bad value"), case.lift(fs));
}

#[test]
fn result_lift_function_failure_wins() {
    let case: Result<u32, &str> = Err("bad value");
    let fs: Result<Box<dyn Fn(u32) -> u32>, &str> = Err("bad function");

    assert_eq!(Err("bad function"), case.lift(fs));
}
