use partial_function::order::{compare, is_ge, is_gt, is_le, is_lt, is_same};
use partial_function::sort::stable_sort;
use partial_function::{
    DualBoundedFunction, LowerBoundedFunction, LowerPartialFunction, LowerPartialFunctionBuilder,
    PartialFunction, PartialFunctionBuilder, Relation,
};

type Dual = PartialFunction<f64, f64, Box<dyn Fn(f64) -> f64>>;
type Lower = LowerPartialFunction<f64, i32, Box<dyn Fn(f64) -> i32>>;
type Steps = PartialFunction<i64, i64, Box<dyn Fn(i64) -> i64>>;

fn two_pieces() -> Dual {
    Dual::new()
        .with(0.0, 1.0, Box::new(|x| x))
        .with(1.0, 2.0, Box::new(|_| 5.0))
        .build()
}

#[test]
fn scenario_two_touching_pieces() {
    let p = two_pieces();
    assert_eq!(p.eval(0.5), Some(0.5));
    assert_eq!(p.eval(1.0), Some(5.0));
    assert_eq!(p.eval(1.999), Some(5.0));
    assert_eq!(p.eval(2.0), Some(5.0));
    assert_eq!(p.eval(2.1), None);
}

#[test]
fn inside_one_piece_gives_that_piece() {
    let p = Steps::new()
        .with(20, 30, Box::new(|x| x + 2000))
        .with(0, 10, Box::new(|x| x + 1000))
        .with(10, 20, Box::new(|x| x * 2))
        .build();
    assert_eq!(p.eval(5), Some(1005));
    assert_eq!(p.eval(15), Some(30));
    assert_eq!(p.eval(25), Some(2025));
}

#[test]
fn shared_boundary_goes_to_the_later_piece() {
    let p = Steps::new()
        .with(10, 20, Box::new(|_| 2))
        .with(0, 10, Box::new(|_| 1))
        .build();
    assert_eq!(p.eval(10), Some(2));
    assert_eq!(p.eval(9), Some(1));
    assert_eq!(p.eval(0), Some(1));
}

#[test]
fn last_piece_is_closed_at_its_end() {
    let p = Steps::new()
        .with(0, 10, Box::new(|_| 1))
        .with(10, 20, Box::new(|_| 2))
        .build();
    assert_eq!(p.eval(20), Some(2));
    assert_eq!(p.eval(21), None);
}

#[test]
fn outside_every_piece_is_undefined() {
    let p = two_pieces();
    assert_eq!(p.eval(-0.1), None);
    assert_eq!(p.eval(-1000.0), None);
    assert_eq!(p.eval(2.5), None);
    assert_eq!(p.eval(f64::INFINITY), None);
}

#[test]
fn empty_function_is_undefined_everywhere() {
    let p = Dual::new().build();
    assert_eq!(p.eval(0.0), None);
    let f = Lower::new().build();
    assert_eq!(f.eval(0.0), None);
}

#[test]
fn unordered_input_is_undefined() {
    let p = two_pieces();
    assert_eq!(p.eval(f64::NAN), None);
    let f = Lower::new().with(0.0, Box::new(|_| 1)).build();
    assert_eq!(f.eval(f64::NAN), None);
}

#[test]
fn gap_is_claimed_by_the_piece_before_it() {
    let p = Steps::new()
        .with(0, 10, Box::new(|_| 1))
        .with(20, 30, Box::new(|_| 2))
        .build();
    assert_eq!(p.eval(10), Some(1));
    assert_eq!(p.eval(15), Some(1));
    assert_eq!(p.eval(19), Some(1));
    assert_eq!(p.eval(20), Some(2));
    assert_eq!(p.eval(25), Some(2));
    assert_eq!(p.eval(30), Some(2));
    assert_eq!(p.eval(31), None);
    assert_eq!(p.eval(-1), None);
}

#[test]
fn evaluation_is_repeatable() {
    let p = two_pieces();
    let first = p.eval(0.25);
    let second = p.eval(0.25);
    assert_eq!(first, second);
    assert_eq!(first, Some(0.25));
    assert_eq!(p.eval(7.0), p.eval(7.0));
    assert_eq!(p.eval(1.0), p.eval(1.0));
}

#[test]
fn can_insert_rejects_collisions() {
    let b = Dual::new().with(0.0, 1.0, Box::new(|x| x));
    assert!(!b.can_insert(&-0.5, &0.5));
    assert!(!b.can_insert(&0.5, &2.0));
    assert!(!b.can_insert(&0.4, &0.6));
    assert!(!b.can_insert(&-2.0, &2.0));
    assert!(!b.can_insert(&0.0, &1.0));
}

#[test]
fn can_insert_rejects_collisions_in_the_other_order() {
    let starts_inside = Dual::new().with(-0.5, 0.5, Box::new(|x| x));
    assert!(!starts_inside.can_insert(&0.0, &1.0));
    let ends_inside = Dual::new().with(0.5, 2.0, Box::new(|x| x));
    assert!(!ends_inside.can_insert(&0.0, &1.0));
    let inner = Dual::new().with(0.4, 0.6, Box::new(|x| x));
    assert!(!inner.can_insert(&0.0, &1.0));
    let outer = Dual::new().with(-2.0, 2.0, Box::new(|x| x));
    assert!(!outer.can_insert(&0.0, &1.0));
}

#[test]
fn can_insert_accepts_touching_and_distant_intervals() {
    let b = Dual::new().with(0.0, 1.0, Box::new(|x| x));
    assert!(b.can_insert(&1.0, &2.0));
    assert!(b.can_insert(&-1.0, &0.0));
    assert!(b.can_insert(&5.0, &6.0));
    assert!(Dual::new().can_insert(&0.0, &1.0));
}

#[test]
fn try_with_inserts_or_hands_the_builder_back() {
    let b = Steps::new().with(0, 10, Box::new(|_| 1));
    let b = match b.try_with(5, 15, Box::new(|_| 2)) {
        Ok(_) => panic!("a colliding interval was inserted"),
        Err(b) => b,
    };
    let b = match b.try_with(10, 20, Box::new(|_| 3)) {
        Ok(b) => b,
        Err(_) => panic!("a touching interval was refused"),
    };
    let p = b.build();
    assert_eq!(p.eval(7), Some(1));
    assert_eq!(p.eval(12), Some(3));
    assert_eq!(p.eval(20), Some(3));
}

#[test]
fn builders_start_empty() {
    let b: PartialFunctionBuilder<i64, i64, Box<dyn Fn(i64) -> i64>> = PartialFunctionBuilder::new();
    assert!(b.can_insert(&0, &1));
    assert_eq!(b.build().eval(0), None);
    let l: LowerPartialFunctionBuilder<i64, i64, Box<dyn Fn(i64) -> i64>> =
        LowerPartialFunctionBuilder::new();
    assert!(l.can_insert(&0));
    assert_eq!(l.build().eval(0), None);
}

#[test]
fn lower_can_insert_rejects_a_bound_that_is_taken() {
    let b = Lower::new().with(0.0, Box::new(|_| 1));
    assert!(!b.can_insert(&0.0));
    assert!(b.can_insert(&1.0));
    assert!(b.can_insert(&-1.0));
}

#[test]
fn lower_try_with_inserts_or_hands_the_builder_back() {
    let b = Lower::new().with(0.0, Box::new(|_| 1));
    let b = match b.try_with(0.0, Box::new(|_| 9)) {
        Ok(_) => panic!("a bound was inserted twice"),
        Err(b) => b,
    };
    let b = match b.try_with(-3.0, Box::new(|_| 7)) {
        Ok(b) => b,
        Err(_) => panic!("a free bound was refused"),
    };
    let f = b.build();
    assert_eq!(f.eval(-4.0), None);
    assert_eq!(f.eval(-3.0), Some(7));
    assert_eq!(f.eval(-0.5), Some(7));
    assert_eq!(f.eval(0.0), Some(1));
    assert_eq!(f.eval(12.0), Some(1));
}

#[test]
fn lower_pieces_are_sorted_whatever_the_order_of_insertion() {
    let f = LowerPartialFunction::<i64, i64, Box<dyn Fn(i64) -> i64>>::new()
        .with(30, Box::new(|x| x + 3))
        .with(10, Box::new(|x| x + 1))
        .with(40, Box::new(|x| x + 4))
        .with(20, Box::new(|x| x + 2))
        .build();
    assert_eq!(f.eval(9), None);
    assert_eq!(f.eval(10), Some(11));
    assert_eq!(f.eval(19), Some(20));
    assert_eq!(f.eval(20), Some(22));
    assert_eq!(f.eval(35), Some(38));
    assert_eq!(f.eval(40), Some(44));
    assert_eq!(f.eval(1_000_000), Some(1_000_004));
}

#[test]
fn compare_reports_all_four_relations() {
    assert_eq!(compare(&1.0, &2.0), Relation::Less);
    assert_eq!(compare(&2.0, &2.0), Relation::Equal);
    assert_eq!(compare(&3.0, &2.0), Relation::Greater);
    assert_eq!(compare(&f64::NAN, &2.0), Relation::Unordered);
    assert_eq!(compare(&2.0, &f64::NAN), Relation::Unordered);
    assert_eq!(compare(&7u64, &9u64), Relation::Less);
}

#[test]
fn comparisons_fail_on_unordered_values() {
    let nan = f64::NAN;
    assert!(!is_lt(&nan, &1.0));
    assert!(!is_le(&nan, &1.0));
    assert!(!is_gt(&nan, &1.0));
    assert!(!is_ge(&nan, &1.0));
    assert!(!is_same(&nan, &nan));
    assert!(is_lt(&0.0, &1.0));
    assert!(is_le(&1.0, &1.0));
    assert!(is_gt(&2.0, &1.0));
    assert!(is_ge(&1.0, &1.0));
    assert!(is_same(&1.0, &1.0));
    assert!(!is_lt(&1.0, &1.0));
    assert!(!is_gt(&1.0, &1.0));
}

#[test]
fn sort_orders_by_lower_bound_and_keeps_ties_in_place() {
    let pieces = vec![
        LowerBoundedFunction::new('a', 3),
        LowerBoundedFunction::<i32, (), char>::new('b', 1),
        LowerBoundedFunction::new('c', 3),
        LowerBoundedFunction::new('d', 2),
        LowerBoundedFunction::new('e', 1),
    ];
    let sorted = stable_sort(pieces);
    let names: Vec<char> = sorted.iter().map(|p| p.func).collect();
    let bounds: Vec<i32> = sorted.iter().map(|p| p.lower).collect();
    assert_eq!(names, vec!['b', 'e', 'd', 'a', 'c']);
    assert_eq!(bounds, vec![1, 1, 2, 3, 3]);
}

#[test]
fn sort_falls_back_to_the_higher_bound_on_unordered_lower_bounds() {
    let pieces = vec![
        DualBoundedFunction::<f64, (), u8>::new(0, f64::NAN, 5.0),
        DualBoundedFunction::new(1, f64::NAN, 4.0),
        DualBoundedFunction::new(2, f64::NAN, 4.0),
    ];
    let sorted = stable_sort(pieces);
    let names: Vec<u8> = sorted.iter().map(|p| p.func).collect();
    assert_eq!(names, vec![1, 2, 0]);
}

#[test]
fn piece_constructors_keep_their_arguments() {
    let d = DualBoundedFunction::<i32, i32, fn(i32) -> i32>::new(|x| x + 1, 2, 9);
    assert_eq!(d.lower, 2);
    assert_eq!(d.higher, 9);
    assert_eq!((d.func)(4), 5);
    let l = LowerBoundedFunction::<i32, i32, fn(i32) -> i32>::new(|x| x - 1, 7);
    assert_eq!(l.lower, 7);
    assert_eq!((l.func)(4), 3);
}

#[test]
fn sort_breaks_equal_lower_bounds_by_the_higher_bound() {
    let pieces = vec![
        DualBoundedFunction::<i32, (), char>::new('a', 1, 9),
        DualBoundedFunction::new('b', 1, 4),
        DualBoundedFunction::new('c', 0, 5),
        DualBoundedFunction::new('d', 1, 4),
    ];
    let sorted = stable_sort(pieces);
    let names: Vec<char> = sorted.iter().map(|p| p.func).collect();
    assert_eq!(names, vec!['c', 'b', 'd', 'a']);
}

#[test]
fn sort_of_nothing_and_of_one_piece() {
    let none: Vec<LowerBoundedFunction<i32, (), char>> = Vec::new();
    assert!(stable_sort(none).is_empty());
    let one = stable_sort(vec![LowerBoundedFunction::<i32, (), char>::new('x', 4)]);
    assert_eq!(one.len(), 1);
    assert_eq!(one[0].func, 'x');
    assert_eq!(one[0].lower, 4);
}

#[test]
fn lower_unordered_bound_never_governs_alone() {
    let f = Lower::new().with(f64::NAN, Box::new(|_| 1)).build();
    assert_eq!(f.eval(0.0), None);
    assert_eq!(f.eval(f64::NAN), None);
}
