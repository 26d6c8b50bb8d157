use lazy::Lazy;

#[derive(Copy, Clone)]
struct ComplexTestType {
    v1: i32,
    v2: i32,
    v3: f32,
}

fn test_lazy_complex_helper(complex: ComplexTestType, int: i32, float: f32) -> ComplexTestType {
    let mut x = complex;
    x.v1 += int;
    x.v2 += int;
    x.v3 += float;
    x
}

#[test]
fn test_lazy_float() {
    let mut x: Lazy<f64, fn(f64) -> f64> = Lazy::from(8.0);

    //Same value
    x.add_function(|y| y * 1.0);
    assert_eq!(x.get(), 8.0);

    //Dif value
    x.add_function(|y| y * 2.0);
    assert_eq!(x.get(), 16.0);
}

#[test]
fn test_lazy_int() {
    let mut x: Lazy<i32, fn(i32) -> i32> = Lazy::from(8);

    //Same value
    x.add_function(|y| y * 1);
    assert_eq!(x.get(), 8);

    //Dif value
    x.add_function(|y| y * 2);
    assert_eq!(x.get(), 16);
}

#[test]
fn test_lazy_complex() {
    let x = ComplexTestType { v1: 1, v2: 2, v3: 3.0 };
    let mut x: Lazy<ComplexTestType, fn(ComplexTestType) -> ComplexTestType> = Lazy::from(x);

    //Same value
    x.add_function(|y| test_lazy_complex_helper(y, 0, 0.0));
    let a = x.get();
    assert_eq!(a.v1, 1);
    assert_eq!(a.v2, 2);
    assert_eq!(a.v3, 3.0);

    //Same value
    x.add_function(|y| test_lazy_complex_helper(y, 6, 5.0));
    let a = x.get();
    assert_eq!(a.v1, 7);
    assert_eq!(a.v2, 8);
    assert_eq!(a.v3, 8.0);
}

#[test]
fn test_identity_on_empty() {
    let mut x: Lazy<i32, fn(i32) -> i32> = Lazy::from(5);
    assert_eq!(x.get(), 5);
}

#[test]
fn test_single_transformation() {
    let mut x: Lazy<i32, fn(i32) -> i32> = Lazy::from(10);
    x.add_function(|y| y + 5);
    assert_eq!(x.get(), 15);
}

#[test]
fn test_composition_order() {
    // Applied left to right: (10 + 1) * 2 == 22, not 10 * 2 + 1 == 21.
    let mut x: Lazy<i32, fn(i32) -> i32> = Lazy::from(10);
    x.add_function(|y| y + 1);
    x.add_function(|y| y * 2);
    assert_eq!(x.get(), 22);
}

#[test]
fn test_repeated_reads() {
    // After a read the queue is empty; further reads replay nothing.
    let mut x: Lazy<i32, fn(i32) -> i32> = Lazy::from(7);
    x.add_function(|y| y * 3);
    assert_eq!(x.get(), 21);
    assert_eq!(x.get(), 21);
    assert_eq!(x.get(), 21);
}

#[test]
fn test_batching_equivalence() {
    let mut batched: Lazy<i32, fn(i32) -> i32> = Lazy::from(10);
    batched.add_function(|y| y + 1);
    batched.add_function(|y| y * 2);

    let mut stepped: Lazy<i32, fn(i32) -> i32> = Lazy::from(10);
    stepped.add_function(|y| y + 1);
    let mid = stepped.get();
    stepped.add_function(|y| y * 2);

    assert_eq!(mid, 11);
    assert_eq!(batched.get(), stepped.get());
}

#[test]
fn test_calculate_clears_queue() {
    let mut x: Lazy<i32, fn(i32) -> i32> = Lazy::from(2);
    x.add_function(|y| y + 3);
    x.calculate();
    assert_eq!(x.get(), 5);
    assert_eq!(x.get(), 5);
}

#[test]
fn test_calculate_on_empty_queue() {
    let mut x: Lazy<i32, fn(i32) -> i32> = Lazy::from(9);
    x.calculate();
    x.calculate();
    assert_eq!(x.get(), 9);
}
