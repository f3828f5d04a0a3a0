use partial_function::{LowerPartialFunction, PartialFunction};

type Dual = PartialFunction<f64, f64, Box<dyn Fn(f64) -> f64>>;
type Lower = LowerPartialFunction<f64, i32, Box<dyn Fn(f64) -> i32>>;

#[test]
fn tests_macro_single() {
    let p = Dual::new().with(0.0, 1.0, Box::new(|x| x)).build();
    assert_eq!(Some(0.5), p.eval(0.5));
}

#[test]
fn tests_macro_single_start() {
    let p = Dual::new().with(0.0, 1.0, Box::new(|x| x)).build();
    assert_eq!(Some(0.0), p.eval(0.0));
}

#[test]
fn tests_macro_single_ending() {
    let p = Dual::new().with(0.0, 1.0, Box::new(|x| x)).build();
    assert_eq!(Some(1.0), p.eval(1.0));
}

#[test]
fn tests_macro_single_nan() {
    let p = Dual::new().with(0.0, 1.0, Box::new(|x| x)).build();
    assert!(p.eval(999.0).is_none());
}

#[test]
#[allow(unused_variables)]
fn tests_macro_dual_start() {
    let p = Dual::new()
        .with(1.0, 2.0, Box::new(|x| 5.0))
        .with(0.0, 1.0, Box::new(|x| x))
        .build();
    assert_eq!(Some(5.0), p.eval(1.0));
}

#[test]
#[allow(unused_variables)]
fn tests_macro_dual_end() {
    let p = Dual::new()
        .with(0.0, 1.0, Box::new(|x| x))
        .with(1.0, 2.0, Box::new(|x| 5.0))
        .build();
    assert_eq!(Some(5.0), p.eval(1.0));
}

#[test]
#[should_panic]
#[allow(unused_variables)]
fn tests_macro_intersect_start() {
    let b = Dual::new().with(0.0, 1.0, Box::new(|x| x));
    match b.try_with(-0.5, 0.5, Box::new(|x| 5.0)) {
        Ok(b) => {
            b.build();
        }
        Err(_) => panic!("the intervals collide"),
    }
}

#[test]
#[should_panic]
#[allow(unused_variables)]
fn tests_macro_intersect_end() {
    let b = Dual::new().with(0.0, 1.0, Box::new(|x| x));
    match b.try_with(0.5, 2.0, Box::new(|x| 5.0)) {
        Ok(b) => {
            b.build();
        }
        Err(_) => panic!("the intervals collide"),
    }
}

#[test]
#[should_panic]
#[allow(unused_variables)]
fn tests_macro_intersect_inner() {
    let b = Dual::new().with(0.0, 1.0, Box::new(|x| x));
    match b.try_with(0.4, 0.6, Box::new(|x| 5.0)) {
        Ok(b) => {
            b.build();
        }
        Err(_) => panic!("the intervals collide"),
    }
}

#[test]
#[should_panic]
#[allow(unused_variables)]
fn tests_macro_intersect_outer() {
    let b = Dual::new().with(0.0, 1.0, Box::new(|x| x));
    match b.try_with(-2.0, 2.0, Box::new(|x| 5.0)) {
        Ok(b) => {
            b.build();
        }
        Err(_) => panic!("the intervals collide"),
    }
}

#[test]
#[should_panic]
#[allow(unused_variables)]
fn tests_macro_intersect_same() {
    let b = Dual::new().with(0.0, 1.0, Box::new(|x| x));
    match b.try_with(0.0, 1.0, Box::new(|x| 5.0)) {
        Ok(b) => {
            b.build();
        }
        Err(_) => panic!("the intervals collide"),
    }
}

#[test]
#[allow(unused_variables)]
fn tests_macro_lower_partial_normal() {
    let f = Lower::new()
        .with(0.0, Box::new(|x| 1))
        .with(1.0, Box::new(|x| 2))
        .build();
    assert_eq!(f.eval(-1.0), None);
    assert_eq!(f.eval(0.0), Some(1));
    assert_eq!(f.eval(0.5), Some(1));
    assert_eq!(f.eval(1.0), Some(2));
    assert_eq!(f.eval(1000.0), Some(2));
}

#[test]
#[allow(unused_variables)]
fn tests_macro_lower_partial_inverse_insert() {
    let f = Lower::new()
        .with(1.0, Box::new(|x| 2))
        .with(0.0, Box::new(|x| 1))
        .build();
    assert_eq!(f.eval(-1.0), None);
    assert_eq!(f.eval(0.0), Some(1));
    assert_eq!(f.eval(0.5), Some(1));
    assert_eq!(f.eval(1.0), Some(2));
    assert_eq!(f.eval(1000.0), Some(2));
}

#[test]
#[should_panic]
#[allow(unused_variables)]
fn tests_macro_lower_partial_overlap() {
    let b = Lower::new().with(0.0, Box::new(|x| 1));
    match b.try_with(0.0, Box::new(|x| 2)) {
        Ok(b) => {
            b.build();
        }
        Err(_) => panic!("two pieces start at the same bound"),
    }
}
