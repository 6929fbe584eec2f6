use rust_micrograd::engine::{Graph, Tensor};

fn show(g: &Graph, t: &Tensor) -> (String, f64, f64) {
    (t.label(g), f64::from_bits(t.data(g)), f64::from_bits(t.grad(g)))
}

#[test]
fn training_test() {
    let mut g = Graph::new();
    let a = Tensor::new_with_label(&mut g, (2.0f64).to_bits(), "a"); // grad: 6.0
    a.set_label(&mut g, "a");
    let b = Tensor::new_with_label(&mut g, (-3.0f64).to_bits(), "b"); // grad: -2.0*2.0 = -4.0
    b.set_label(&mut g, "b");
    let c = Tensor::new_with_label(&mut g, (10.0f64).to_bits(), "c"); // grad: -2.0
    c.set_label(&mut g, "c");
    let f = Tensor::new_with_label(&mut g, (-2.0f64).to_bits(), "f"); // grad: 4.0
    f.set_label(&mut g, "f");

    // nudge each leaf along its gradient with a 0.01 learning rate; the
    // value of L then moves in the positive direction.
    let v = f64::from_bits(a.data(&g)) + 0.01 * 6.0;
    a.set_data(&mut g, v.to_bits());
    let v = f64::from_bits(b.data(&g)) + 0.01 * -4.0;
    b.set_data(&mut g, v.to_bits());
    let v = f64::from_bits(c.data(&g)) + 0.01 * -2.0;
    c.set_data(&mut g, v.to_bits());
    let v = f64::from_bits(f.data(&g)) + 0.01 * 4.0;
    f.set_data(&mut g, v.to_bits());

    let e = a.mul(&mut g, &b); // -6.0, grad: -2.0
    e.set_label(&mut g, "e");
    let d = e.add(&mut g, &c); // 4.0, grad: -2.0
    d.set_label(&mut g, "d");
    let l = d.mul(&mut g, &f); // -8.0 before the update
    l.set_label(&mut g, "L");

    println!("{:?}", show(&g, &l)); // -7.286496
}
