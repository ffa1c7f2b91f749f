use dynagrad::operation::{evaluate, Op};
use dynagrad::valtype::{is_near_zero, MINUS_ONE, ONE, TINY, ZERO};
use dynagrad::{
    Add, Div, EvalError, Exp, FloatCall, Graph, Leaf, Ln, Minus, Mul, Pow, PtrVWrap, Sin, ValType,
};

fn unit(c: FloatCall) -> u32 {
    let f = f32::from_bits;
    let r: f32 = match c {
        FloatCall::Add(a, b) => f(a) + f(b),
        FloatCall::Mul(a, b) => f(a) * f(b),
        FloatCall::Div(a, b) => f(a) / f(b),
        FloatCall::Pow(a, b) => f(a).powf(f(b)),
        FloatCall::Sin(a) => f(a).sin(),
        FloatCall::Cos(a) => f(a).cos(),
        FloatCall::Tan(a) => f(a).tan(),
        FloatCall::Exp(a) => f(a).exp(),
        FloatCall::Ln(a) => f(a).ln(),
        FloatCall::FromDouble(b) => f64::from_bits(b) as f32,
        FloatCall::FromInt(x) => x as f32,
        FloatCall::FromLong(x) => x as f32,
    };
    r.to_bits()
}

fn single(x: f32) -> ValType {
    ValType::F(x.to_bits())
}

fn leaf(g: &mut Graph, x: f32) -> PtrVWrap {
    Leaf(g, single(x))
}

#[test]
fn constants_are_the_bit_patterns_of_the_numbers() {
    assert_eq!(ZERO, 0f32.to_bits());
    assert_eq!(ONE, 1f32.to_bits());
    assert_eq!(MINUS_ONE, (-1f32).to_bits());
    assert_eq!(TINY, 1e-15f32.to_bits());
}

#[test]
fn near_zero_is_the_open_interval_around_zero() {
    let cases: Vec<f32> = vec![
        0.0,
        -0.0,
        1e-16,
        -1e-16,
        9.9e-16,
        1e-15,
        -1e-15,
        1.1e-15,
        1.0,
        -1.0,
        f32::MIN_POSITIVE,
        f32::INFINITY,
        f32::NEG_INFINITY,
        f32::NAN,
    ];
    for x in cases {
        assert_eq!(is_near_zero(x.to_bits()), x < 1e-15 && x > -1e-15, "{}", x);
    }
    assert!(is_near_zero(TINY - 1));
    assert!(!is_near_zero(TINY));
    assert!(!is_near_zero(TINY + 1));
}

#[test]
fn a_leaf_without_value_is_a_fault() {
    let none: Vec<(ValType, bool)> = vec![];
    assert_eq!(evaluate(Op::Leaf, &none, None, &unit), Err(EvalError::MissingValue));
    assert_eq!(evaluate(Op::Const, &none, None, &unit), Err(EvalError::MissingValue));
    assert_eq!(evaluate(Op::Leaf, &none, Some(ValType::L(9)), &unit), Ok(ValType::L(9)));
}

#[test]
fn zero_and_one_are_single_precision_numbers() {
    let none: Vec<(ValType, bool)> = vec![];
    assert_eq!(evaluate(Op::Zero, &none, None, &unit), Ok(single(0.)));
    assert_eq!(evaluate(Op::One, &none, Some(ValType::I(5)), &unit), Ok(single(1.)));
}

#[test]
fn a_link_is_one_where_its_input_is_active() {
    assert_eq!(evaluate(Op::Link, &vec![(single(7.), true)], None, &unit), Ok(single(1.)));
    assert_eq!(evaluate(Op::Link, &vec![(single(7.), false)], None, &unit), Ok(single(0.)));
}

#[test]
fn sums_and_products_promote_by_the_table() {
    let f = single(2.5);
    let i = ValType::I(4);
    let pair = |a: ValType, b: ValType| vec![(a, false), (b, false)];
    assert_eq!(evaluate(Op::Add, &pair(f, f), None, &unit), Ok(single(5.)));
    assert_eq!(evaluate(Op::Mul, &pair(f, f), None, &unit), Ok(single(6.25)));
    assert_eq!(evaluate(Op::Add, &pair(i, i), None, &unit), Ok(ValType::I(8)));
    assert_eq!(evaluate(Op::Mul, &pair(i, i), None, &unit), Ok(ValType::I(16)));
    assert_eq!(evaluate(Op::Add, &pair(f, i), None, &unit), Ok(single(6.5)));
    assert_eq!(evaluate(Op::Add, &pair(i, f), None, &unit), Ok(single(6.5)));
    assert_eq!(evaluate(Op::Mul, &pair(f, i), None, &unit), Ok(single(10.)));
    assert_eq!(evaluate(Op::Mul, &pair(i, f), None, &unit), Ok(single(10.)));
}

#[test]
fn other_pairs_of_types_are_not_supported() {
    let d = ValType::D(1.5f64.to_bits());
    let l = ValType::L(3);
    let f = single(1.);
    let i = ValType::I(1);
    let pair = |a: ValType, b: ValType| vec![(a, false), (b, false)];
    for op in [Op::Add, Op::Mul] {
        for (a, b) in [(d, d), (l, l), (d, f), (f, d), (l, i), (i, l), (f, l), (d, i)] {
            assert_eq!(evaluate(op, &pair(a, b), None, &unit), Err(EvalError::UnsupportedTypes));
        }
    }
}

#[test]
fn an_integer_result_that_does_not_fit_is_a_fault() {
    let pair = |a: i32, b: i32| vec![(ValType::I(a), false), (ValType::I(b), false)];
    assert_eq!(evaluate(Op::Add, &pair(i32::MAX, 1), None, &unit), Err(EvalError::Overflow));
    assert_eq!(evaluate(Op::Add, &pair(i32::MIN, -1), None, &unit), Err(EvalError::Overflow));
    assert_eq!(evaluate(Op::Mul, &pair(65536, 32768), None, &unit), Err(EvalError::Overflow));
    assert_eq!(
        evaluate(Op::Add, &pair(i32::MAX, 0), None, &unit),
        Ok(ValType::I(i32::MAX))
    );
    assert_eq!(
        evaluate(Op::Mul, &pair(-65536, 32768), None, &unit),
        Ok(ValType::I(i32::MIN))
    );
}

#[test]
fn quotient_power_and_functions_give_single_precision() {
    let d = ValType::D(4f64.to_bits());
    let i = ValType::I(2);
    let l = ValType::L(0);
    let pair = |a: ValType, b: ValType| vec![(a, false), (b, false)];
    assert_eq!(evaluate(Op::Div, &pair(d, i), None, &unit), Ok(single(2.)));
    assert_eq!(evaluate(Op::Pow, &pair(d, i), None, &unit), Ok(single(16.)));
    assert_eq!(evaluate(Op::Exp, &vec![(l, false)], None, &unit), Ok(single(1.)));
    assert_eq!(evaluate(Op::Sin, &vec![(l, false)], None, &unit), Ok(single(0.)));
    assert_eq!(evaluate(Op::Cos, &vec![(l, false)], None, &unit), Ok(single(1.)));
    assert_eq!(evaluate(Op::Tan, &vec![(l, false)], None, &unit), Ok(single(0.)));
    assert_eq!(
        evaluate(Op::Ln, &vec![(ValType::D(1f64.to_bits()), false)], None, &unit),
        Ok(single(0.))
    );
    assert_eq!(
        evaluate(Op::Sin, &vec![(ValType::D(2f64.to_bits()), false)], None, &unit),
        Ok(single(2f32.sin()))
    );
}

#[test]
fn a_power_with_an_exponent_near_zero_is_one() {
    let pair = |a: ValType, b: ValType| vec![(a, false), (b, false)];
    let base = single(0.);
    assert_eq!(evaluate(Op::Pow, &pair(base, single(0.)), None, &unit), Ok(single(1.)));
    assert_eq!(evaluate(Op::Pow, &pair(base, single(1e-16)), None, &unit), Ok(single(1.)));
    assert_eq!(evaluate(Op::Pow, &pair(base, single(-1e-16)), None, &unit), Ok(single(1.)));
    assert_eq!(evaluate(Op::Pow, &pair(base, ValType::I(0)), None, &unit), Ok(single(1.)));
    // at 1e-15 the guard is off: 0 raised to a positive number is 0
    assert_eq!(evaluate(Op::Pow, &pair(base, single(1e-15)), None, &unit), Ok(single(0.)));
    assert_eq!(evaluate(Op::Pow, &pair(single(3.), single(2.)), None, &unit), Ok(single(9.)));
}

#[test]
fn evaluation_stores_the_value_in_every_node_below() {
    let mut g = Graph::new();
    let x = leaf(&mut g, 3.);
    let y = leaf(&mut g, 5.);
    let other = Mul(&mut g, x, x);
    let s = Add(&mut g, x, y);
    let p = Mul(&mut g, s, y);
    assert_eq!(g.value(s), None);
    assert_eq!(p.apply_fwd(&mut g, &unit), Ok(single(40.)));
    assert_eq!(g.value(p), Some(single(40.)));
    assert_eq!(g.value(s), Some(single(8.)));
    assert_eq!(g.value(x), Some(single(3.)));
    // a node that is not below the one evaluated is left alone
    assert_eq!(g.value(other), None);
}

#[test]
fn a_fault_below_ends_the_evaluation() {
    let mut g = Graph::new();
    let d = Leaf(&mut g, ValType::D(1f64.to_bits()));
    let i = Leaf(&mut g, ValType::I(i32::MAX));
    let bad = Add(&mut g, d, d);
    let big = Add(&mut g, i, i);
    // the first operand is computed first, so its fault is the one reported
    let both = Mul(&mut g, bad, big);
    assert_eq!(both.apply_fwd(&mut g, &unit), Err(EvalError::UnsupportedTypes));
    let other = Mul(&mut g, big, bad);
    assert_eq!(other.apply_fwd(&mut g, &unit), Err(EvalError::Overflow));
}

#[test]
fn integers_are_computed_exactly() {
    let mut g = Graph::new();
    let a = Leaf(&mut g, ValType::I(7));
    let b = Leaf(&mut g, ValType::I(-3));
    let s = Add(&mut g, a, b);
    let p = Mul(&mut g, s, a);
    assert_eq!(p.apply_fwd(&mut g, &unit), Ok(ValType::I(28)));
}

#[test]
fn minus_is_a_sum_with_the_negated_operand() {
    let mut g = Graph::new();
    let a = leaf(&mut g, 10.);
    let b = leaf(&mut g, 4.);
    let before = g.len();
    let m = Minus(&mut g, a, b);
    assert_eq!(g.len(), before + 3);
    assert_eq!(g.operation(m), Op::Add);
    assert_eq!(m.apply_fwd(&mut g, &unit), Ok(single(6.)));
}

#[test]
fn constructors_add_one_node_with_their_inputs() {
    let mut g = Graph::new();
    assert_eq!(g.len(), 0);
    let a = leaf(&mut g, 2.);
    let b = leaf(&mut g, 8.);
    assert_eq!((a, b), (PtrVWrap(0), PtrVWrap(1)));
    assert_eq!(g.operation(a), Op::Leaf);
    assert_eq!(g.input_count(a), 0);
    assert_eq!(g.value(b), Some(single(8.)));
    assert!(!g.is_active(a));
    let q = Div(&mut g, b, a);
    assert_eq!(q, PtrVWrap(2));
    assert_eq!(g.operation(q), Op::Div);
    assert_eq!(g.input_count(q), 2);
    assert_eq!((g.input(q, 0), g.input(q, 1)), (b, a));
    assert_eq!(g.value(q), None);
    assert_eq!(q.adjoint(&g), None);
    let e = Exp(&mut g, a);
    assert_eq!(g.operation(e), Op::Exp);
    assert_eq!(g.input(e, 0), a);
    let p = Pow(&mut g, a, b);
    assert_eq!(p.apply_fwd(&mut g, &unit), Ok(single(256.)));
    assert_eq!(q.apply_fwd(&mut g, &unit), Ok(single(4.)));
    let l = Ln(&mut g, e);
    assert_eq!(l.apply_fwd(&mut g, &unit), Ok(single(2f32.exp().ln())));
    let s = Sin(&mut g, a);
    assert_eq!(s.apply_fwd(&mut g, &unit), Ok(single(2f32.sin())));
}

#[test]
fn handles_are_equal_when_they_name_one_node() {
    let mut g = Graph::new();
    let a = leaf(&mut g, 1.);
    let b = leaf(&mut g, 1.);
    assert_ne!(a, b);
    let again = a.active(&mut g);
    assert_eq!(a, again);
    assert!(g.is_active(a));
    assert_eq!(a.inactive(&mut g), a);
    assert!(!g.is_active(a));
}

#[test]
fn the_tangent_sums_over_the_active_leaves() {
    // f = x * y at x = 3, y = 5: df/dx = 5, df/dy = 3
    let mut g = Graph::new();
    let x = leaf(&mut g, 3.);
    let y = leaf(&mut g, 5.);
    let f = Mul(&mut g, x, y);
    let d = f.fwd(&mut g);
    assert_eq!(d.apply_fwd(&mut g, &unit), Ok(single(0.)));
    x.active(&mut g);
    assert_eq!(d.apply_fwd(&mut g, &unit), Ok(single(5.)));
    y.active(&mut g);
    assert_eq!(d.apply_fwd(&mut g, &unit), Ok(single(8.)));
    x.inactive(&mut g);
    assert_eq!(d.apply_fwd(&mut g, &unit), Ok(single(3.)));
}

#[test]
fn the_tangent_adds_nodes_and_leaves_the_rest_alone() {
    let mut g = Graph::new();
    let x = leaf(&mut g, 3.).active(&mut g);
    let y = leaf(&mut g, 5.);
    let f = Mul(&mut g, x, y);
    let before = g.len();
    let d = f.fwd(&mut g);
    assert!(d.0 >= before);
    assert_eq!(g.operation(f), Op::Mul);
    assert_eq!((g.input(f, 0), g.input(f, 1)), (x, y));
    assert_eq!(g.value(x), Some(single(3.)));
    assert!(g.is_active(x));
    // the tangent of a sine is the cosine of its operand
    let s = Sin(&mut g, x);
    let c = s.fwd(&mut g);
    assert_eq!(g.operation(c), Op::Cos);
    assert_eq!(g.input(c, 0), x);
}

#[test]
fn forward_and_reverse_agree_on_a_polynomial() {
    // f = x * x * y + y at x = 3, y = 5: df/dx = 2xy = 30, df/dy = x^2 + 1 = 10
    let mut g = Graph::new();
    let x = leaf(&mut g, 3.);
    let y = leaf(&mut g, 5.);
    let xx = Mul(&mut g, x, x);
    let xxy = Mul(&mut g, xx, y);
    let yy = Mul(&mut g, y, y);
    let f = Add(&mut g, xxy, yy);
    assert_eq!(f.apply_fwd(&mut g, &unit), Ok(single(70.)));

    let d = f.fwd(&mut g);
    x.active(&mut g);
    let forward_x = d.apply_fwd(&mut g, &unit);
    x.inactive(&mut g);
    y.active(&mut g);
    let forward_y = d.apply_fwd(&mut g, &unit);
    y.inactive(&mut g);

    let adjoints = f.rev(&mut g);
    let reverse_x = adjoints.get(&x).expect("x adjoint missing").apply_fwd(&mut g, &unit);
    let reverse_y = adjoints.get(&y).expect("y adjoint missing").apply_fwd(&mut g, &unit);

    assert_eq!(forward_x, Ok(single(30.)));
    assert_eq!(forward_y, Ok(single(19.)));
    assert_eq!(reverse_x, forward_x);
    assert_eq!(reverse_y, forward_y);
    // nothing arrived after a visit: no node holds an adjoint
    assert!(g.holds_no_adjoint());
    for i in 0..g.len() {
        assert_eq!(PtrVWrap(i).adjoint(&g), None);
    }
}

#[test]
fn a_pass_collects_the_leaves_it_reaches() {
    let mut g = Graph::new();
    let x = leaf(&mut g, 3.);
    let y = leaf(&mut g, 5.);
    let z = leaf(&mut g, 7.);
    let f = Mul(&mut g, x, y);
    let adjoints = f.rev(&mut g);
    assert!(adjoints.contains_key(&x));
    assert!(adjoints.contains_key(&y));
    assert!(!adjoints.contains_key(&z));
    assert!(!adjoints.contains_key(&f));
    assert_eq!(adjoints.get(&z), None);
    assert_eq!(adjoints.get(&PtrVWrap(1000)), None);
    let dx = adjoints.get(&x).expect("x adjoint missing");
    assert!(dx.0 < g.len());
    assert_eq!(dx.apply_fwd(&mut g, &unit), Ok(single(5.)));
    let map = adjoints.into_map();
    assert_eq!(map.len(), 2);
    assert_eq!(map.get(&x.0), Some(&dx));
    let mut leaves: Vec<usize> = map.keys().copied().collect();
    leaves.sort();
    assert_eq!(leaves, vec![x.0, y.0]);
}

#[test]
fn an_adjoint_that_arrives_after_the_visit_stays_with_the_node() {
    // f = x * (x * x) at x = 4. The leaf is visited before the inner
    // product, so the pass collects x * x = 16 for it, and the two shares
    // of the inner product, 2 * x * x = 32, stay with the leaf.
    let mut g = Graph::new();
    let x = leaf(&mut g, 4.);
    let inner = Mul(&mut g, x, x);
    let f = Mul(&mut g, x, inner);
    let adjoints = f.rev(&mut g);
    let collected = adjoints.get(&x).expect("x adjoint missing");
    assert_eq!(collected.apply_fwd(&mut g, &unit), Ok(single(16.)));
    assert!(!g.holds_no_adjoint());
    let late = x.adjoint(&g).expect("late adjoint missing");
    assert_eq!(late.apply_fwd(&mut g, &unit), Ok(single(32.)));
    // the leaf gives the value of the adjoint it holds
    assert_eq!(x.apply_rev(&mut g, &unit), Ok(single(32.)));
    assert_eq!(x.adjoint(&g), Some(late));
    assert_eq!(inner.adjoint(&g), None);
    assert_eq!(f.adjoint(&g), None);
    x.reset_adjoint(&mut g);
    assert_eq!(x.adjoint(&g), None);
}

#[test]
fn an_adjoint_held_before_a_pass_is_added_to() {
    let mut g = Graph::new();
    let x = leaf(&mut g, 4.);
    let f = Mul(&mut g, x, x);
    // leave an adjoint on the leaf, as an earlier pass may
    let g1 = Mul(&mut g, x, f);
    g1.rev(&mut g);
    let stale_value = x.apply_rev(&mut g, &unit);
    assert_eq!(stale_value, Ok(single(32.)));
    // the next pass starts from what the leaf holds: 32 + 2x = 40
    let with_stale = f.rev(&mut g).get(&x).expect("x adjoint missing");
    assert_eq!(with_stale.apply_fwd(&mut g, &unit), Ok(single(40.)));
    // after a reset it starts from nothing: 2x = 8
    x.reset_adjoint(&mut g);
    let clean = f.rev(&mut g).get(&x).expect("x adjoint missing");
    assert_eq!(clean.apply_fwd(&mut g, &unit), Ok(single(8.)));
}

#[test]
fn a_pass_from_a_leaf_collects_one() {
    let mut g = Graph::new();
    let x = leaf(&mut g, 4.);
    let adjoints = x.rev(&mut g);
    let dx = adjoints.get(&x).expect("x adjoint missing");
    assert_eq!(g.operation(dx), Op::One);
    assert_eq!(dx.apply_fwd(&mut g, &unit), Ok(single(1.)));
    assert_eq!(x.adjoint(&g), None);
}

#[test]
fn a_new_value_of_a_leaf_is_followed_without_rebuilding() {
    let mut g = Graph::new();
    let x = leaf(&mut g, 4.).active(&mut g);
    let c = leaf(&mut g, 3.);
    let xx = Mul(&mut g, x, x);
    let f = Mul(&mut g, xx, c);
    let d = f.fwd(&mut g);
    let adjoint = f.rev(&mut g).get(&x).expect("x adjoint missing");
    let nodes = g.len();
    assert_eq!(d.apply_fwd(&mut g, &unit), Ok(single(24.)));
    assert_eq!(adjoint.apply_fwd(&mut g, &unit), Ok(single(24.)));
    x.set_val(&mut g, single(5.));
    c.set_val(&mut g, single(2.));
    assert_eq!(f.apply_fwd(&mut g, &unit), Ok(single(50.)));
    assert_eq!(d.apply_fwd(&mut g, &unit), Ok(single(20.)));
    assert_eq!(adjoint.apply_fwd(&mut g, &unit), Ok(single(20.)));
    assert_eq!(g.len(), nodes);
}

#[test]
fn second_derivatives_agree_in_both_modes() {
    // f = x^2 * y at x = 2, y = 5: d2f/dx2 = 2y = 10
    let mut g = Graph::new();
    let x = leaf(&mut g, 2.).active(&mut g);
    let y = leaf(&mut g, 5.);
    let xx = Mul(&mut g, x, x);
    let f = Mul(&mut g, xx, y);
    let forward = f.fwd(&mut g).fwd(&mut g).apply_fwd(&mut g, &unit);
    let first = f.rev(&mut g).get(&x).expect("x adjoint missing");
    assert!(g.holds_no_adjoint());
    let second = first.rev(&mut g).get(&x).expect("x adjoint missing");
    assert!(g.holds_no_adjoint());
    let reverse = second.apply_fwd(&mut g, &unit);
    assert_eq!(forward, Ok(single(10.)));
    assert_eq!(reverse, forward);
}

#[test]
fn a_second_pass_that_leaves_adjoints_behind_falls_short() {
    // f = (x * x) * (x * y) at x = 2, y = 5: d2f/dx2 = 6xy = 60. The second
    // pass reaches nodes after their visit, so part of the derivative
    // stays with them and the adjoint collected is short of it.
    let mut g = Graph::new();
    let x = leaf(&mut g, 2.).active(&mut g);
    let y = leaf(&mut g, 5.);
    let xx = Mul(&mut g, x, x);
    let xy = Mul(&mut g, x, y);
    let f = Mul(&mut g, xx, xy);
    let forward = f.fwd(&mut g).fwd(&mut g).apply_fwd(&mut g, &unit);
    assert_eq!(forward, Ok(single(60.)));
    let first = f.rev(&mut g).get(&x).expect("x adjoint missing");
    assert!(g.holds_no_adjoint());
    assert_eq!(first.apply_fwd(&mut g, &unit), Ok(single(60.)));
    let second = first.rev(&mut g).get(&x).expect("x adjoint missing");
    assert!(!g.holds_no_adjoint());
    assert_eq!(second.apply_fwd(&mut g, &unit), Ok(single(20.)));
}

#[test]
fn looped_product_has_zero_second_derivative() {
    // y = x * 2^10 at x = 2
    let mut g = Graph::new();
    let x = leaf(&mut g, 2.).active(&mut g);
    let mut l = x;
    for _ in 0..10 {
        let two = leaf(&mut g, 2.);
        l = Mul(&mut g, l, two);
    }
    assert_eq!(l.apply_fwd(&mut g, &unit), Ok(single(2048.)));
    assert_eq!(l.fwd(&mut g).apply_fwd(&mut g, &unit), Ok(single(1024.)));
    assert_eq!(l.fwd(&mut g).fwd(&mut g).apply_fwd(&mut g, &unit), Ok(single(0.)));
}

#[test]
fn leaves_with_equal_values_have_their_own_adjoints() {
    // f = a * a * b with a = b = 3: df/da = 2ab = 18, df/db = a^2 = 9
    let mut g = Graph::new();
    let a = leaf(&mut g, 3.);
    let b = leaf(&mut g, 3.);
    let aa = Mul(&mut g, a, a);
    let f = Mul(&mut g, aa, b);
    let adjoints = f.rev(&mut g);
    let da = adjoints.get(&a).expect("a adjoint missing");
    let db = adjoints.get(&b).expect("b adjoint missing");
    assert_ne!(da, db);
    assert_eq!(da.apply_fwd(&mut g, &unit), Ok(single(18.)));
    assert_eq!(db.apply_fwd(&mut g, &unit), Ok(single(9.)));
}

#[test]
fn a_node_shows_what_it_holds() {
    let mut g = Graph::new();
    let a = leaf(&mut g, 2.).active(&mut g);
    let s = Sin(&mut g, a);
    let leaf_node = g.node(a);
    assert_eq!(leaf_node.raw, Op::Leaf);
    assert!(leaf_node.inp.is_empty());
    assert_eq!(leaf_node.val, Some(single(2.)));
    assert!(leaf_node.eval_g);
    assert_eq!(leaf_node.adj_accum, None);
    let sine = g.node(s);
    assert_eq!(sine.raw, Op::Sin);
    assert_eq!(sine.inp, vec![a]);
    assert_eq!(sine.val, None);
    assert!(!sine.eval_g);
}

#[test]
fn the_tangent_of_a_product_adds_its_nodes_in_order() {
    let mut g = Graph::new();
    let x = leaf(&mut g, 3.);
    let y = leaf(&mut g, 5.);
    let f = Mul(&mut g, x, y);
    let d = f.fwd(&mut g);
    // the seeds of x and y, then x' * y, x * y' and their sum
    assert_eq!(g.len(), 8);
    assert_eq!(d, PtrVWrap(7));
    let ops: Vec<Op> = (3..8).map(|i| g.operation(PtrVWrap(i))).collect();
    assert_eq!(ops, vec![Op::Link, Op::Link, Op::Mul, Op::Mul, Op::Add]);
    assert_eq!(g.input(PtrVWrap(3), 0), x);
    assert_eq!(g.input(PtrVWrap(4), 0), y);
    assert_eq!((g.input(PtrVWrap(5), 0), g.input(PtrVWrap(5), 1)), (PtrVWrap(3), y));
    assert_eq!((g.input(PtrVWrap(6), 0), g.input(PtrVWrap(6), 1)), (x, PtrVWrap(4)));
    assert_eq!((g.input(d, 0), g.input(d, 1)), (PtrVWrap(5), PtrVWrap(6)));
}

#[test]
fn a_pass_adds_its_nodes_in_order() {
    let mut g = Graph::new();
    let x = leaf(&mut g, 3.);
    let y = leaf(&mut g, 5.);
    let f = Mul(&mut g, x, y);
    let adjoints = f.rev(&mut g);
    // the 1 of the root, the shares y * 1 and x * 1, and for each leaf a 0
    // and the sum of it and the share
    assert_eq!(g.len(), 10);
    let ops: Vec<Op> = (3..10).map(|i| g.operation(PtrVWrap(i))).collect();
    assert_eq!(ops, vec![Op::One, Op::Mul, Op::Mul, Op::Zero, Op::Add, Op::Zero, Op::Add]);
    assert_eq!((g.input(PtrVWrap(4), 0), g.input(PtrVWrap(4), 1)), (y, PtrVWrap(3)));
    assert_eq!((g.input(PtrVWrap(5), 0), g.input(PtrVWrap(5), 1)), (x, PtrVWrap(3)));
    assert_eq!((g.input(PtrVWrap(7), 0), g.input(PtrVWrap(7), 1)), (PtrVWrap(6), PtrVWrap(4)));
    assert_eq!((g.input(PtrVWrap(9), 0), g.input(PtrVWrap(9), 1)), (PtrVWrap(8), PtrVWrap(5)));
    assert_eq!(adjoints.get(&x), Some(PtrVWrap(7)));
    assert_eq!(adjoints.get(&y), Some(PtrVWrap(9)));
}

#[test]
fn a_node_without_adjoint_has_no_adjoint_value() {
    let mut g = Graph::new();
    let x = leaf(&mut g, 4.);
    let y = leaf(&mut g, 3.);
    let f = Mul(&mut g, x, y);
    // before any pass
    assert_eq!(x.apply_rev(&mut g, &unit), Err(EvalError::MissingAdjoint));
    assert_eq!(f.apply_rev(&mut g, &unit), Err(EvalError::MissingAdjoint));
    // a pass takes the adjoint from every node it visits
    let adjoints = f.rev(&mut g);
    assert_eq!(x.apply_rev(&mut g, &unit), Err(EvalError::MissingAdjoint));
    assert_eq!(y.apply_rev(&mut g, &unit), Err(EvalError::MissingAdjoint));
    assert_eq!(f.apply_rev(&mut g, &unit), Err(EvalError::MissingAdjoint));
    // what the pass returned is a node of its own, without adjoint
    let dx = adjoints.get(&x).expect("x adjoint missing");
    assert_eq!(dx.apply_rev(&mut g, &unit), Err(EvalError::MissingAdjoint));
    assert_eq!(dx.apply_fwd(&mut g, &unit), Ok(single(3.)));
    // the fault leaves the graph as it is
    assert_eq!(g.value(f), None);
    assert_eq!(g.value(x), Some(single(4.)));
}

#[test]
fn the_value_of_an_adjoint_is_stored_in_the_adjoint() {
    // f = x * (x * x) at x = 4: the two shares of the inner product reach
    // the leaf after its visit and stay with it
    let mut g = Graph::new();
    let x = leaf(&mut g, 4.);
    let inner = Mul(&mut g, x, x);
    let f = Mul(&mut g, x, inner);
    f.rev(&mut g);
    let held = x.adjoint(&g).expect("late adjoint missing");
    assert_eq!(g.value(held), None);
    assert_eq!(x.apply_rev(&mut g, &unit), Ok(single(32.)));
    assert_eq!(g.value(held), Some(single(32.)));
    assert_eq!(g.value(x), Some(single(4.)));
    // a fault in the adjoint is the fault of its evaluation
    x.set_val(&mut g, ValType::D(2f64.to_bits()));
    assert_eq!(x.apply_rev(&mut g, &unit), Err(EvalError::UnsupportedTypes));
    x.reset_adjoint(&mut g);
    assert_eq!(x.apply_rev(&mut g, &unit), Err(EvalError::MissingAdjoint));
}

#[test]
fn the_tangent_is_the_closed_form_in_the_same_arithmetic() {
    // f = (x * x) * y at x = 0.1, y = 0.3, where single precision rounds:
    // df/dx = (1 * x + x * 1) * y + (x * x) * 0, to the last digit
    let x0 = 0.1f32;
    let y0 = 0.3f32;
    let mut g = Graph::new();
    let x = leaf(&mut g, x0).active(&mut g);
    let y = leaf(&mut g, y0);
    let xx = Mul(&mut g, x, x);
    let f = Mul(&mut g, xx, y);
    let d = f.fwd(&mut g);
    let closed = (1f32 * x0 + x0 * 1f32) * y0 + (x0 * x0) * 0f32;
    assert_eq!(d.apply_fwd(&mut g, &unit), Ok(single(closed)));
}
