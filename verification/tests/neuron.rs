use rust_micrograd::engine::{Graph, Tensor};

fn show(g: &Graph, t: &Tensor) -> (String, f64, f64) {
    (t.label(g), f64::from_bits(t.data(g)), f64::from_bits(t.grad(g)))
}

#[test]
fn neuron_test() {
    let mut g = Graph::new();
    // inputs
    let x1 = Tensor::new_with_label(&mut g, (2.0f64).to_bits(), "x1");
    let x2 = Tensor::new_with_label(&mut g, (0.0f64).to_bits(), "x2");

    // weights
    let w1 = Tensor::new_with_label(&mut g, (-3.0f64).to_bits(), "w1");
    let w2 = Tensor::new_with_label(&mut g, (1.0f64).to_bits(), "w2");
    // bias
    let b = Tensor::new_with_label(&mut g, (6.88137358f64).to_bits(), "b");

    // x1*w1 + x2*w2 + b
    let x1w1 = x1.mul(&mut g, &w1);
    let x2w2 = x2.mul(&mut g, &w2);
    let x1w1x2w2 = x1w1.add(&mut g, &x2w2);
    let n = x1w1x2w2.add(&mut g, &b);
    println!("n: {:?}", show(&g, &n));

    let o = n.tanh(&mut g);
    println!("o: {:?}", show(&g, &o));

    println!("\n{}\n", "-".repeat(36));

    // back propagation by hand, step by step
    o.set_grad(&mut g, (1.0f64).to_bits());
    println!("o: {:?}", show(&g, &o));

    // o = tanh(n), so dtanh/dx = 1 - o**2
    let og = f64::from_bits(o.data(&g));
    n.set_grad(&mut g, (1.0 - og.powi(2)).to_bits()); // 0.5
    println!("n: {:?}", show(&g, &n));

    // a plus operation passes the previous gradient through.
    x1w1x2w2.set_grad(&mut g, (0.5f64).to_bits());
    b.set_grad(&mut g, (0.5f64).to_bits());
    x1w1.set_grad(&mut g, (0.5f64).to_bits());
    x2w2.set_grad(&mut g, (0.5f64).to_bits());

    // a multiply operation multiplies the previous gradient with the other
    // side's value.
    let v = f64::from_bits(w1.data(&g)) * f64::from_bits(x1w1.grad(&g));
    x1.set_grad(&mut g, v.to_bits());
    let v = f64::from_bits(x1.data(&g)) * f64::from_bits(x1w1.grad(&g));
    w1.set_grad(&mut g, v.to_bits());
    let v = f64::from_bits(w2.data(&g)) * f64::from_bits(x2w2.grad(&g));
    x2.set_grad(&mut g, v.to_bits());
    let v = f64::from_bits(x2.data(&g)) * f64::from_bits(x2w2.grad(&g));
    w2.set_grad(&mut g, v.to_bits());

    println!("w1: {:?}", show(&g, &w1));
    println!("x1: {:?}", show(&g, &x1));
    println!("w2: {:?}", show(&g, &w2));
    println!("x2: {:?}", show(&g, &x2));
    println!("b: {:?}", show(&g, &b));
}

#[test]
fn test_backward() {
    let mut g = Graph::new();
    // inputs
    let x1 = Tensor::new_with_label(&mut g, (2.0f64).to_bits(), "x1");
    let x2 = Tensor::new_with_label(&mut g, (0.0f64).to_bits(), "x2");

    // weights
    let w1 = Tensor::new_with_label(&mut g, (-3.0f64).to_bits(), "w1");
    let w2 = Tensor::new_with_label(&mut g, (1.0f64).to_bits(), "w2");
    // bias
    let b = Tensor::new_with_label(&mut g, (6.88137358f64).to_bits(), "b");

    // x1*w1 + x2*w2 + b
    let x1w1 = x1.mul(&mut g, &w1);
    let x2w2 = x2.mul(&mut g, &w2);
    let x1w1x2w2 = x1w1.add(&mut g, &x2w2);
    let n = x1w1x2w2.add(&mut g, &b);
    println!("n: {:?}", show(&g, &n));

    let o = n.tanh(&mut g);
    println!("o: {:?}", show(&g, &o));

    println!("\n{}\n", "-".repeat(36));

    o.set_grad(&mut g, (1.0f64).to_bits());
    println!("o: {:?}", show(&g, &o));

    o.backward(&mut g);
    println!("n: {:?}", show(&g, &n));

    n.backward(&mut g);
    println!("x1w1x2w2: {:?}", show(&g, &x1w1x2w2));
    println!("b: {:?}", show(&g, &b));
    b.backward(&mut g); // does nothing beyond its own seed (leaf node)

    x1w1x2w2.backward(&mut g);
    println!("x1w1: {:?}", show(&g, &x1w1));
    println!("x2w2: {:?}", show(&g, &x2w2));
    x1w1.backward(&mut g);
    println!("x1: {:?}", show(&g, &x1));
    println!("w1: {:?}", show(&g, &w1));
    x2w2.backward(&mut g);
    println!("x2: {:?}", show(&g, &x2));
    println!("w2: {:?}", show(&g, &w2));
}

#[test]
fn test_back_propagation() {
    let mut g = Graph::new();
    // inputs
    let x1 = Tensor::new_with_label(&mut g, (2.0f64).to_bits(), "x1");
    let x2 = Tensor::new_with_label(&mut g, (0.0f64).to_bits(), "x2");

    // weights
    let w1 = Tensor::new_with_label(&mut g, (-3.0f64).to_bits(), "w1");
    let w2 = Tensor::new_with_label(&mut g, (1.0f64).to_bits(), "w2");
    // bias
    let b = Tensor::new_with_label(&mut g, (6.88137358f64).to_bits(), "b");

    // x1*w1 + x2*w2 + b
    let x1w1 = x1.mul(&mut g, &w1);
    x1w1.set_label(&mut g, "x1w1");
    let x2w2 = x2.mul(&mut g, &w2);
    x2w2.set_label(&mut g, "x2w2");
    let x1w1x2w2 = x1w1.add(&mut g, &x2w2);
    x1w1x2w2.set_label(&mut g, "x1w1x2w2");
    let n = x1w1x2w2.add(&mut g, &b);
    n.set_label(&mut g, "n");
    println!("n: {:?}", show(&g, &n));

    let o = n.tanh(&mut g);
    o.set_label(&mut g, "o");
    println!("o: {:?}", show(&g, &o));

    println!("\n{}\n", "-".repeat(36));

    o.backward(&mut g);
    println!("o: {:?}", show(&g, &o));
    println!("n: {:?}", show(&g, &n));
    println!("x1w1x2w2: {:?}", show(&g, &x1w1x2w2));
    println!("b: {:?}", show(&g, &b));
    println!("x1w1: {:?}", show(&g, &x1w1));
    println!("x2w2: {:?}", show(&g, &x2w2));
    println!("x1: {:?}", show(&g, &x1));
    println!("w1: {:?}", show(&g, &w1));
    println!("x2: {:?}", show(&g, &x2));
    println!("w2: {:?}", show(&g, &w2));
}

#[test]
fn test_same_node() {
    let mut g = Graph::new();
    let a = Tensor::new_with_label(&mut g, (3.0f64).to_bits(), "a");
    let b = a.add(&mut g, &a);
    b.set_label(&mut g, "b");

    b.backward(&mut g);
    println!("b: {:?}", show(&g, &b));
    // b = 2a, so db/da must come out as 2, one contribution per slot
    println!("a: {:?}", show(&g, &a));

    println!("\n{}\n", "-".repeat(36));

    let a = Tensor::new_with_label(&mut g, (-2.0f64).to_bits(), "a");
    let b = Tensor::new_with_label(&mut g, (3.0f64).to_bits(), "b");
    let d = a.mul(&mut g, &b);
    d.set_label(&mut g, "d");
    let e = a.add(&mut g, &b);
    e.set_label(&mut g, "e");
    let f = d.mul(&mut g, &e);
    f.set_label(&mut g, "f");

    f.backward(&mut g);
    println!("f: {:?}", show(&g, &f));
    println!("d: {:?}", show(&g, &d));
    println!("e: {:?}", show(&g, &e));
    println!("a: {:?}", show(&g, &a));
    println!("b: {:?}", show(&g, &b));
}

#[test]
fn test_operators() {
    let mut g = Graph::new();
    // inputs
    let x1 = Tensor::new_with_label(&mut g, (2.0f64).to_bits(), "x1");
    let x2 = Tensor::new_with_label(&mut g, (0.0f64).to_bits(), "x2");

    // weights
    let w1 = Tensor::new_with_label(&mut g, (-3.0f64).to_bits(), "w1");
    let w2 = Tensor::new_with_label(&mut g, (1.0f64).to_bits(), "w2");
    // bias
    let b = Tensor::new_with_label(&mut g, (6.88137358f64).to_bits(), "b");

    // x1*w1 + x2*w2 + b
    let x1w1 = x1.mul(&mut g, &w1);
    x1w1.set_label(&mut g, "x1w1");
    let x2w2 = x2.mul(&mut g, &w2);
    x2w2.set_label(&mut g, "x2w2");
    let x1w1x2w2 = x1w1.add(&mut g, &x2w2);
    x1w1x2w2.set_label(&mut g, "x1w1x2w2");
    let n = x1w1x2w2.add(&mut g, &b);
    n.set_label(&mut g, "n");
    println!("n: {:?}", show(&g, &n));

    // tanh written out with exp and div: (e^{2n} - 1) / (e^{2n} + 1)
    let two_n = Tensor::scalar_mul(&mut g, (2.0f64).to_bits(), &n);
    let e = two_n.exp(&mut g);

    let num = e.sub_scalar(&mut g, (1.0f64).to_bits());
    let den = e.add_scalar(&mut g, (1.0f64).to_bits());
    let o = num.div(&mut g, &den);
    o.set_label(&mut g, "o");
    println!("o: {:?}", show(&g, &o));

    println!("\n{}\n", "-".repeat(36));

    o.backward(&mut g);
    println!("o: {:?}", show(&g, &o));
    for prev in &o.prev(&g) {
        println!("prev: {:?}", show(&g, prev));
        for p in &prev.prev(&g) {
            println!("p: {:?}", show(&g, p));
        }
    }
    println!("e: {:?}", show(&g, &e));
    for prev in &e.prev(&g) {
        println!("prev: {:?}", show(&g, prev));
        for p in &prev.prev(&g) {
            println!("p: {:?}", show(&g, p));
        }
    }
    println!("n: {:?}", show(&g, &n));

    println!("x1: {:?}", show(&g, &x1));
    println!("w1: {:?}", show(&g, &w1));
    println!("x2: {:?}", show(&g, &x2));
    println!("w2: {:?}", show(&g, &w2));
}
