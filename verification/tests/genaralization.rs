use rust_micrograd::engine::{Graph, Tensor};

fn show(g: &Graph, t: &Tensor) -> (String, f64, f64) {
    (t.label(g), f64::from_bits(t.data(g)), f64::from_bits(t.grad(g)))
}

#[test]
fn genaralization_test() {
    let mut g = Graph::new();
    let a = Tensor::new_with_label(&mut g, (1.0f64).to_bits(), "a");
    let b = a.add_scalar(&mut g, (1.0f64).to_bits());
    println!("b: {:?}", show(&g, &b));
    let b = a.mul_scalar(&mut g, (2.0f64).to_bits());
    println!("b: {:?}", show(&g, &b));

    let b = Tensor::scalar_mul(&mut g, (2.0f64).to_bits(), &a);
    println!("b: {:?}", show(&g, &b));
}
