fn f(x: f64) -> f64 {
    3.0 * x.powi(2) - 4.0 * x + 5.0
}

#[test]
fn derivative_test() {
    let h = 0.0000000001;
    let x = -3.0;
    let result = (f(x + h) - f(x)) / h;

    println!("Result: {}", result);

    let a = 2.0;
    let b = -3.0;
    let mut c = 10.0;

    let d = a * b + c;
    println!("D: {}", d);

    let d1 = a * b + c;
    c += h;
    let d2 = a * b + c;

    println!("D1: {}", d1);
    println!("D2: {}", d2);
    println!("slope: {}", (d2 - d1) / h);
}
