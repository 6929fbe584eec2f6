use rust_micrograd::engine::{Graph, Tensor};

fn show(g: &Graph, t: &Tensor) -> (String, f64, f64) {
    (t.label(g), f64::from_bits(t.data(g)), f64::from_bits(t.grad(g)))
}

#[test]
fn back_propagation_test() {
    let mut g = Graph::new();
    let a = Tensor::new_with_label(&mut g, (2.0f64).to_bits(), "a");
    a.set_label(&mut g, "a");
    let b = Tensor::new_with_label(&mut g, (-3.0f64).to_bits(), "b");
    b.set_label(&mut g, "b");
    let c = Tensor::new_with_label(&mut g, (10.0f64).to_bits(), "c");
    c.set_label(&mut g, "c");
    let e = a.mul(&mut g, &b);
    e.set_label(&mut g, "e");
    println!("{:?}", show(&g, &a));
    let d = e.add(&mut g, &c);
    d.set_label(&mut g, "d");
    let f = Tensor::new_with_label(&mut g, (-2.0f64).to_bits(), "f");
    f.set_label(&mut g, "f");
    let l = d.mul(&mut g, &f);
    l.set_label(&mut g, "L");
    println!("{:?}", show(&g, &l));
    println!("{:?}", l.prev(&g));

    let h = 0.001;
    let l1 = f64::from_bits(l.data(&g));
    let l2 = f64::from_bits(l.data(&g)) + h;
    let grad = (l2 - l1) / h;
    println!("L grad: {}", grad);

    let a = Tensor::new_with_label(&mut g, (2.0f64).to_bits(), "a");
    a.set_label(&mut g, "a");
    let b = Tensor::new_with_label(&mut g, (-3.0f64).to_bits(), "b");
    b.set_label(&mut g, "b");
    let c = Tensor::new_with_label(&mut g, (10.0f64).to_bits(), "c");
    c.set_label(&mut g, "c");
    let e = a.mul(&mut g, &b);
    e.set_label(&mut g, "e");
    let d = e.add(&mut g, &c);
    d.set_label(&mut g, "d");
    let dv = d.data(&g);
    d.set_data(&mut g, dv);
    let f = Tensor::new_with_label(&mut g, (-2.0f64).to_bits(), "f");
    f.set_label(&mut g, "f");
    let l1 = d.mul(&mut g, &f);

    let a = Tensor::new_with_label(&mut g, (2.0f64).to_bits(), "a");
    a.set_label(&mut g, "a");
    let b = Tensor::new_with_label(&mut g, (-3.0f64).to_bits(), "b");
    b.set_label(&mut g, "b");
    let c = Tensor::new_with_label(&mut g, (10.0f64).to_bits(), "c");
    c.set_label(&mut g, "c");
    let e = a.mul(&mut g, &b);
    e.set_label(&mut g, "e");
    let d = e.add(&mut g, &c);
    d.set_label(&mut g, "d");
    let dv = f64::from_bits(d.data(&g)) + h;
    d.set_data(&mut g, dv.to_bits());
    let f = Tensor::new_with_label(&mut g, (-2.0f64).to_bits(), "f");
    f.set_label(&mut g, "f");
    let l2 = d.mul(&mut g, &f);
    let grad = (f64::from_bits(l2.data(&g)) - f64::from_bits(l1.data(&g))) / h;
    println!("dL/dd grad: {}", grad);
}
