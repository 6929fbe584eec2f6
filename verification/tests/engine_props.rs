use rust_micrograd::engine::{Graph, Tensor};

fn leaf(g: &mut Graph, x: f64) -> Tensor {
    Tensor::new(g, x.to_bits())
}

fn val(g: &Graph, t: &Tensor) -> f64 {
    f64::from_bits(t.data(g))
}

fn grad(g: &Graph, t: &Tensor) -> f64 {
    f64::from_bits(t.grad(g))
}

#[test]
fn forward_matches_direct_evaluation() {
    let mut g = Graph::new();
    let a = leaf(&mut g, 2.0);
    let b = leaf(&mut g, -3.0);
    let c = leaf(&mut g, 10.0);
    let f = leaf(&mut g, -2.0);
    let e = a.mul(&mut g, &b);
    let d = e.add(&mut g, &c);
    let l = d.mul(&mut g, &f);
    assert_eq!(val(&g, &e), 2.0 * -3.0);
    assert_eq!(val(&g, &d), 2.0 * -3.0 + 10.0);
    assert_eq!(val(&g, &l), (2.0 * -3.0 + 10.0) * -2.0);

    let n = a.neg(&mut g);
    assert_eq!(val(&g, &n), -2.0);
    let s = a.sub(&mut g, &b);
    assert_eq!(val(&g, &s), 2.0 - -3.0);
    let q = a.div(&mut g, &f);
    assert_eq!(val(&g, &q), 2.0 / -2.0);
    let p = b.pow(&mut g, (3.0f64).to_bits());
    assert_eq!(val(&g, &p), -27.0);
}

#[test]
fn transcendental_values_match() {
    let mut g = Graph::new();
    let one = leaf(&mut g, 1.0);
    let e1 = one.exp(&mut g);
    assert!((val(&g, &e1) - std::f64::consts::E).abs() < 1e-12);

    let zero = leaf(&mut g, 0.0);
    let e0 = zero.exp(&mut g);
    assert_eq!(val(&g, &e0), 1.0);

    let x = leaf(&mut g, 0.5);
    let t = x.tanh(&mut g);
    let e2x = (0.5f64 * 2.0).exp();
    let expected = (e2x - 1.0) / (e2x + 1.0);
    assert!((val(&g, &t) - expected).abs() < 1e-12);

    let t0 = zero.tanh(&mut g);
    assert_eq!(val(&g, &t0), 0.0);
}

#[test]
fn scalar_promotion_is_symmetric() {
    let mut g = Graph::new();
    let a = leaf(&mut g, 5.0);
    let r1 = a.add_scalar(&mut g, (2.0f64).to_bits());
    let r2 = Tensor::scalar_add(&mut g, (2.0f64).to_bits(), &a);
    assert_eq!(val(&g, &r1), 7.0);
    assert_eq!(val(&g, &r2), 7.0);
    let r3 = a.mul_scalar(&mut g, (3.0f64).to_bits());
    let r4 = Tensor::scalar_mul(&mut g, (3.0f64).to_bits(), &a);
    assert_eq!(val(&g, &r3), 15.0);
    assert_eq!(val(&g, &r4), 15.0);
    let r5 = a.sub_scalar(&mut g, (2.0f64).to_bits());
    let r6 = Tensor::scalar_sub(&mut g, (2.0f64).to_bits(), &a);
    assert_eq!(val(&g, &r5), 3.0);
    assert_eq!(val(&g, &r6), -3.0);
    // the promoted scalar takes a real operand slot on the matching side
    assert_eq!(r1.prev(&g).len(), 2);
    assert_eq!(r1.prev(&g)[0], a);
    assert_eq!(r2.prev(&g)[1], a);
}

#[test]
fn topological_order_is_valid() {
    let mut g = Graph::new();
    let a = leaf(&mut g, -2.0);
    let b = leaf(&mut g, 3.0);
    let d = a.mul(&mut g, &b);
    let e = a.add(&mut g, &b);
    let f = d.mul(&mut g, &e);

    let order = f.topological_sort(&g);
    // every node of the diamond appears exactly once
    assert_eq!(order.len(), 5);
    for t in [&a, &b, &d, &e, &f] {
        let count = order.iter().filter(|u| *u == t).count();
        assert_eq!(count, 1);
    }
    // the root comes last
    assert_eq!(order[order.len() - 1], f);
    // every predecessor appears strictly earlier than its consumer
    for (i, t) in order.iter().enumerate() {
        for p in &t.prev(&g) {
            let pos = order.iter().position(|u| u == p).unwrap();
            assert!(pos < i);
        }
    }
    // repeated calls on an unchanged graph return the same order
    let again = f.topological_sort(&g);
    assert_eq!(order, again);
}

#[test]
fn gradient_accumulates_under_sharing() {
    let mut g = Graph::new();
    let a = leaf(&mut g, 3.0);
    let b = a.add(&mut g, &a);
    b.backward(&mut g);
    assert_eq!(val(&g, &b), 6.0);
    assert_eq!(grad(&g, &b), 1.0);
    assert_eq!(grad(&g, &a), 2.0); // one contribution per slot, not 1.0
}

#[test]
fn diamond_dependency_gradients() {
    let mut g = Graph::new();
    let a = leaf(&mut g, -2.0);
    let b = leaf(&mut g, 3.0);
    let d = a.mul(&mut g, &b);
    let e = a.add(&mut g, &b);
    let f = d.mul(&mut g, &e);
    f.backward(&mut g);
    // df/da = b*(a+b) + a*b = 3*1 + (-6) = -3
    assert_eq!(grad(&g, &a), -3.0);
    // df/db = a*(a+b) + a*b = -2*1 + (-6) = -8
    assert_eq!(grad(&g, &b), -8.0);
    assert_eq!(grad(&g, &f), 1.0);
}

#[test]
fn shared_node_rule_applied_exactly_once() {
    let mut g = Graph::new();
    // one node feeding three distinct downstream consumers
    let a = leaf(&mut g, 0.0);
    let c1 = a.add_scalar(&mut g, (1.0f64).to_bits());
    let c2 = a.mul_scalar(&mut g, (2.0f64).to_bits());
    let c3 = a.exp(&mut g);
    let s1 = c1.add(&mut g, &c2);
    let s2 = s1.add(&mut g, &c3);

    let order = s2.topological_sort(&g);
    let count = order.iter().filter(|u| **u == a).count();
    assert_eq!(count, 1);

    s2.backward(&mut g);
    // ds2/da = 1 + 2 + e^0: exactly one contribution per consumer
    assert_eq!(grad(&g, &a), 4.0);
}

#[test]
fn partial_backward_on_inner_node() {
    let mut g = Graph::new();
    let a = leaf(&mut g, 2.0);
    let b = leaf(&mut g, -3.0);
    let d = a.mul(&mut g, &b);
    let f = leaf(&mut g, -2.0);
    let l = d.mul(&mut g, &f);
    // backward from d seeds d as if it were the sole terminal
    d.backward(&mut g);
    assert_eq!(grad(&g, &d), 1.0);
    assert_eq!(grad(&g, &a), -3.0);
    assert_eq!(grad(&g, &b), 2.0);
    // nodes outside d's subgraph are untouched
    assert_eq!(grad(&g, &f), 0.0);
    assert_eq!(grad(&g, &l), 0.0);
}

#[test]
fn accessors_and_mutators() {
    let mut g = Graph::new();
    let a = Tensor::new_with_label(&mut g, (4.0f64).to_bits(), "a");
    assert_eq!(a.label(&g), "a");
    assert_eq!(val(&g, &a), 4.0);
    assert_eq!(grad(&g, &a), 0.0);
    assert_eq!(a.prev(&g).len(), 0);

    a.set_label(&mut g, "renamed");
    assert_eq!(a.label(&g), "renamed");
    a.set_data(&mut g, (7.5f64).to_bits());
    assert_eq!(val(&g, &a), 7.5);
    a.set_grad(&mut g, (1.25f64).to_bits());
    assert_eq!(grad(&g, &a), 1.25);

    let b = leaf(&mut g, 1.0);
    let c = a.add(&mut g, &b);
    let ps = c.prev(&g);
    assert_eq!(ps.len(), 2);
    assert_eq!(ps[0], a);
    assert_eq!(ps[1], b);
    // pow wraps its exponent as an anonymous leaf in the second slot
    let p = a.pow(&mut g, (2.0f64).to_bits());
    let pp = p.prev(&g);
    assert_eq!(pp.len(), 2);
    assert_eq!(pp[0], a);
    assert_eq!(val(&g, &pp[1]), 2.0);
    assert_eq!(val(&g, &p), 7.5 * 7.5);
}

#[test]
fn from_vec_and_sum() {
    let mut g = Graph::new();
    let ts = Tensor::from_vec(&mut g, vec![(1.0f64).to_bits(), (2.0f64).to_bits(), (3.0f64).to_bits()]);
    assert_eq!(ts.len(), 3);
    assert_eq!(val(&g, &ts[1]), 2.0);
    let s = Tensor::sum(&mut g, &ts);
    assert_eq!(val(&g, &s), 6.0);
    let empty: Vec<Tensor> = Vec::new();
    let z = Tensor::sum(&mut g, &empty);
    assert_eq!(val(&g, &z), 0.0);
}

#[test]
fn pow_exponent_gets_no_gradient() {
    let mut g = Graph::new();
    let a = leaf(&mut g, 2.0);
    let p = a.pow(&mut g, (3.0f64).to_bits());
    p.backward(&mut g);
    // d(a^3)/da = 3 * a^2 = 12
    assert_eq!(grad(&g, &a), 12.0);
    // the exponent leaf is a plain constant: no gradient flows to it
    let exp_leaf = p.prev(&g)[1];
    assert_eq!(grad(&g, &exp_leaf), 0.0);
}

#[test]
fn division_routes_through_pow() {
    let mut g = Graph::new();
    let a = leaf(&mut g, 1.0);
    let b = leaf(&mut g, 2.0);
    let q = a.div(&mut g, &b);
    assert_eq!(val(&g, &q), 0.5);
    // div is mul(a, pow(b, -1)): the right operand is the power node
    let ps = q.prev(&g);
    assert_eq!(ps[0], a);
    assert_eq!(val(&g, &ps[1]), 0.5);
    assert_eq!(ps[1].prev(&g)[0], b);
    q.backward(&mut g);
    // d(a/b)/da = 1/b
    assert_eq!(grad(&g, &a), 0.5);
    // d(a/b)/db = -a/b^2
    assert_eq!(grad(&g, &b), -0.25);
}

#[test]
fn ieee_special_values_propagate() {
    let mut g = Graph::new();
    // division by a zero-valued node yields infinity, not an error
    let one = leaf(&mut g, 1.0);
    let zero = leaf(&mut g, 0.0);
    let q = one.div(&mut g, &zero);
    assert!(val(&g, &q).is_infinite());
    // the tanh formula overflows e^{2x} for huge x and propagates NaN
    let big = leaf(&mut g, 1000.0);
    let t = big.tanh(&mut g);
    assert!(val(&g, &t).is_nan());
    // NaN flows through further arithmetic silently
    let s = t.add(&mut g, &one);
    assert!(val(&g, &s).is_nan());
}
