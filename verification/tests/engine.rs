use dynagrad::{
    Cos, Div, EvalError, Exp, FloatCall, Graph, Leaf, Ln, Mul, Pow, PtrVWrap, Sin, Tan, ValType,
};

/// The arithmetic unit of the tests: the machine's single-precision arithmetic.
fn unit(c: FloatCall) -> u32 {
    let f = f32::from_bits;
    let r: f32 = match c {
        FloatCall::Add(a, b) => f(a) + f(b),
        FloatCall::Mul(a, b) => f(a) * f(b),
        FloatCall::Div(a, b) => f(a) / f(b),
        FloatCall::Pow(a, b) => f(a).powf(f(b)),
        FloatCall::Sin(a) => f(a).sin(),
        FloatCall::Cos(a) => f(a).cos(),
        FloatCall::Tan(a) => f(a).tan(),
        FloatCall::Exp(a) => f(a).exp(),
        FloatCall::Ln(a) => f(a).ln(),
        FloatCall::FromDouble(b) => f64::from_bits(b) as f32,
        FloatCall::FromInt(x) => x as f32,
        FloatCall::FromLong(x) => x as f32,
    };
    r.to_bits()
}

fn num(v: Result<ValType, EvalError>) -> f32 {
    match v.expect("value missing") {
        ValType::F(b) => f32::from_bits(b),
        ValType::D(b) => f64::from_bits(b) as f32,
        ValType::I(x) => x as f32,
        ValType::L(x) => x as f32,
    }
}

fn leaf(g: &mut Graph, x: f32) -> PtrVWrap {
    Leaf(g, ValType::F(x.to_bits()))
}

fn eq_f32(a: f32, b: f32) -> bool {
    (a - b).abs() < 0.01
}

/// y = 3 * x^2 with x = 4: the graph, x, the coefficient and y.
fn three_x_squared(active: bool) -> (Graph, PtrVWrap, PtrVWrap, PtrVWrap) {
    let mut g = Graph::new();
    let l0 = leaf(&mut g, 4.);
    if active {
        l0.active(&mut g);
    }
    let l1 = leaf(&mut g, 3.);
    let sq = Mul(&mut g, l0, l0);
    let a = Mul(&mut g, sq, l1);
    (g, l0, l1, a)
}

/// The graph of `outer(inner)` shape used by the tests of one function:
/// leaves x = 2 (active), 3 and 4.
fn three_leaves() -> (Graph, PtrVWrap, PtrVWrap, PtrVWrap) {
    let mut g = Graph::new();
    let l0 = leaf(&mut g, 2.).active(&mut g);
    let l1 = leaf(&mut g, 3.);
    let l2 = leaf(&mut g, 4.);
    (g, l0, l1, l2)
}

#[test]
fn test_loop_fwd() {
    let mut g = Graph::new();
    let l0 = leaf(&mut g, 2.).active(&mut g);

    let mut l = l0;
    for _ in 0..10 {
        let two = leaf(&mut g, 2.);
        l = Mul(&mut g, l, two);
    }

    let vl = l.apply_fwd(&mut g, &unit);
    assert!(eq_f32(num(vl), 2048.));

    let d = l.fwd(&mut g);
    let h = d.apply_fwd(&mut g, &unit);
    assert!(eq_f32(num(h), 1024.));
}

#[test]
fn test_simple_fwd() {
    //(3x)' = 3
    let mut g = Graph::new();
    let l0 = leaf(&mut g, 4.).active(&mut g);
    let l1 = leaf(&mut g, 3.);
    let a = Mul(&mut g, l0, l1);

    let b = a.fwd(&mut g);
    let c = b.apply_fwd(&mut g, &unit);

    assert!(eq_f32(num(c), 3.));
}

#[test]
fn test_square_fwd() {
    //(3x^2)' = 6x{x=4} = 24
    let (mut g, _l0, _l1, a) = three_x_squared(true);

    let b = a.fwd(&mut g);
    let c = b.apply_fwd(&mut g, &unit);

    assert!(eq_f32(num(c), 24.));
}

#[test]
fn test_square_fwd_2() {
    //(x(4)^2)' = 16
    let mut g = Graph::new();
    let l0 = leaf(&mut g, 4.);
    let l1 = leaf(&mut g, 3.).active(&mut g);
    let sq = Mul(&mut g, l0, l0);
    let a = Mul(&mut g, sq, l1);

    let b = a.fwd(&mut g);
    let c = b.apply_fwd(&mut g, &unit);

    assert!(eq_f32(num(c), 16.));
}

#[test]
fn test_simple_rev() {
    //(3x)' = 3
    let mut g = Graph::new();
    let l0 = leaf(&mut g, 4.);
    let l1 = leaf(&mut g, 3.);
    let a = Mul(&mut g, l0, l1);

    let ret = a
        .rev(&mut g)
        .get(&l0)
        .expect("l0 adjoint missing")
        .apply_fwd(&mut g, &unit);

    assert!(eq_f32(num(ret), 3.));
}

#[test]
fn test_simple_rev_2() {
    //(3x^2)' = 6x{x=4} = 24
    let (mut g, l0, _l1, a) = three_x_squared(false);

    let ret = a
        .rev(&mut g)
        .get(&l0)
        .expect("l0 adjoint missing")
        .apply_fwd(&mut g, &unit);

    assert!(eq_f32(num(ret), 24.));
}

#[test]
fn test_composite_fwd_over_fwd() {
    //y=3*x^2 where x=4
    //compute y'' = (6x)' = 6
    let (mut g, _l0, _l1, a) = three_x_squared(true);

    let gg = a.fwd(&mut g).fwd(&mut g);
    let ret = gg.apply_fwd(&mut g, &unit);

    assert!(eq_f32(num(ret), 6.));
}

#[test]
fn test_composite_fwd_over_rev() {
    //y=x*3 where x=4
    //compute y'' = (3)' = 0
    let mut g = Graph::new();
    let l0 = leaf(&mut g, 4.).active(&mut g);
    let l1 = leaf(&mut g, 3.);
    let a = Mul(&mut g, l0, l1);

    let adjoints = a.rev(&mut g);
    let adj = adjoints.get(&l0).expect("l0 adjoint missing");

    let d = adj.fwd(&mut g);
    let ret = d.apply_fwd(&mut g, &unit);

    assert!(eq_f32(num(ret), 0.));
}

#[test]
fn test_composite_fwd_over_rev_2() {
    //y=3*x^2 where x=4
    //compute y'' = (6x)' = 6
    let (mut g, l0, _l1, a) = three_x_squared(true);

    let ret = a
        .rev(&mut g)
        .get(&l0)
        .expect("l0 adjoint missing")
        .fwd(&mut g)
        .apply_fwd(&mut g, &unit);

    assert!(eq_f32(num(ret), 6.));
}

#[test]
fn test_composite_rev_over_rev() {
    //(3x^2)'' = 6
    let (mut g, l0, _l1, a) = three_x_squared(false);

    let ret = a
        .rev(&mut g)
        .get(&l0)
        .expect("l0 adjoint missing")
        .rev(&mut g)
        .get(&l0)
        .expect("l0 adjoint missing")
        .apply_fwd(&mut g, &unit);

    assert!(eq_f32(num(ret), 6.));
}

#[test]
fn test_composite_rev_over_fwd() {
    //(3x^2)'' = 6
    let (mut g, l0, _l1, a) = three_x_squared(true);

    let ret = a
        .fwd(&mut g)
        .rev(&mut g)
        .get(&l0)
        .expect("l0 adjoint missing")
        .apply_fwd(&mut g, &unit);

    assert!(eq_f32(num(ret), 6.));
}

#[test]
fn test_composite_rev_over_fwd_change_input() {
    //(3x^2)'' = 6
    let (mut g, l0, l1, a) = three_x_squared(true);

    let gg = a
        .fwd(&mut g)
        .rev(&mut g)
        .get(&l0)
        .expect("l0 adjoint missing");

    let ret = gg.apply_fwd(&mut g, &unit);
    assert!(eq_f32(num(ret), 6.));

    //change to (7x^2)''=(14x)'=14
    l1.set_val(&mut g, ValType::F(7f32.to_bits()));

    let ret2 = gg.apply_fwd(&mut g, &unit);
    assert!(eq_f32(num(ret2), 14.));
}

#[test]
fn test_composite_rev_over_rev_change_input() {
    //(3x^2)'' = 6
    let (mut g, l0, l1, a) = three_x_squared(false);

    let gg = a
        .rev(&mut g)
        .get(&l0)
        .expect("l0 adjoint missing")
        .rev(&mut g)
        .get(&l0)
        .expect("l0 adjoint missing");

    let ret = gg.apply_fwd(&mut g, &unit);
    assert!(eq_f32(num(ret), 6.));

    //change to (7x^2)''=(14x)'=14
    l1.set_val(&mut g, ValType::F(7f32.to_bits()));

    let ret2 = gg.apply_fwd(&mut g, &unit);
    assert!(eq_f32(num(ret2), 14.));
}

#[test]
fn test_composite_fwd_over_rev_change_input() {
    //(3x^2)'' = 6
    let (mut g, l0, l1, a) = three_x_squared(true);

    let gg = a
        .rev(&mut g)
        .get(&l0)
        .expect("l0 adjoint missing")
        .fwd(&mut g);

    let ret = gg.apply_fwd(&mut g, &unit);
    assert!(eq_f32(num(ret), 6.));

    //change to (7x^2)''=(14x)'=14
    l1.set_val(&mut g, ValType::F(7f32.to_bits()));

    let ret2 = gg.apply_fwd(&mut g, &unit);
    assert!(eq_f32(num(ret2), 14.));
}

#[test]
fn test_composite_fwd_over_fwd_change_input() {
    //y=3*x^2 where x=4
    //compute y'' = (6x)' = 6
    let (mut g, _l0, l1, a) = three_x_squared(true);

    let gg = a.fwd(&mut g).fwd(&mut g);

    let ret = gg.apply_fwd(&mut g, &unit);
    assert!(eq_f32(num(ret), 6.));

    //change to (7x^2)''=(14x)'=14
    l1.set_val(&mut g, ValType::F(7f32.to_bits()));

    let ret2 = gg.apply_fwd(&mut g, &unit);
    assert!(eq_f32(num(ret2), 14.));
}

#[test]
fn test_2nd_partial_derivative() {
    //x=4
    //y=3
    //f=x^2 * y^2
    //d^2(f)/(dx dy) = d(d(x^2 * y^2)/dx)/dy = d(2x*y^2)/dy = 2x*2y = 4*4*3 = 48
    let mut g = Graph::new();
    let l0 = leaf(&mut g, 4.);
    let l1 = leaf(&mut g, 3.);
    let xx = Mul(&mut g, l0, l0);
    let yy = Mul(&mut g, l1, l1);
    let a = Mul(&mut g, xx, yy);

    let gg = a
        .rev(&mut g)
        .get(&l0)
        .expect("l0 adjoint missing")
        .rev(&mut g)
        .get(&l1)
        .expect("l1 adjoint missing");

    let ret = gg.apply_fwd(&mut g, &unit);

    assert!(eq_f32(num(ret), 48.));
}

#[test]
fn test_trig_sin_fwd() {
    //y=3*sin(x) where x=2
    //y'=3*cos(x) where x=2
    //y''=-3*sin(x) where x=2
    let mut g = Graph::new();
    let l0 = leaf(&mut g, 2.).active(&mut g);
    let l1 = leaf(&mut g, 3.);
    let s = Sin(&mut g, l0);
    let a = Mul(&mut g, s, l1);

    assert!(eq_f32(num(a.apply_fwd(&mut g, &unit)), 3.0 * 2f32.sin()));

    let d = a.fwd(&mut g);
    assert!(eq_f32(num(d.apply_fwd(&mut g, &unit)), 3.0 * 2f32.cos()));

    let dd = d.fwd(&mut g);
    assert!(eq_f32(num(dd.apply_fwd(&mut g, &unit)), -3.0 * 2f32.sin()));
}

#[test]
fn test_trig_sin_rev() {
    //y=3*sin(x) where x=2
    //y'=3*cos(x) where x=2
    //y''=-3*sin(x) where x=2
    let mut g = Graph::new();
    let l0 = leaf(&mut g, 2.).active(&mut g);
    let l1 = leaf(&mut g, 3.);
    let s = Sin(&mut g, l0);
    let a = Mul(&mut g, s, l1);

    {
        let d = a
            .rev(&mut g)
            .get(&l0)
            .expect("l0 adjoint missing")
            .apply_fwd(&mut g, &unit);

        assert!(eq_f32(num(d), 3.0 * 2f32.cos()));
    }

    {
        let dd = a
            .rev(&mut g)
            .get(&l0)
            .expect("l0 adjoint missing")
            .rev(&mut g)
            .get(&l0)
            .expect("l0 adjoint missing")
            .apply_fwd(&mut g, &unit);

        assert!(eq_f32(num(dd), -3.0 * 2f32.sin()));
    }
}

#[test]
fn test_trig_cos_fwd() {
    //y=3*cos(x) where x=2
    //y'=-3*sin(x) where x=2
    //y''=-3*cos(x) where x=2
    let mut g = Graph::new();
    let l0 = leaf(&mut g, 2.).active(&mut g);
    let l1 = leaf(&mut g, 3.);
    let c = Cos(&mut g, l0);
    let a = Mul(&mut g, c, l1);

    assert!(eq_f32(num(a.apply_fwd(&mut g, &unit)), 3.0 * 2f32.cos()));

    let d = a.fwd(&mut g);
    assert!(eq_f32(num(d.apply_fwd(&mut g, &unit)), -3.0 * 2f32.sin()));

    let dd = d.fwd(&mut g);
    assert!(eq_f32(num(dd.apply_fwd(&mut g, &unit)), -3.0 * 2f32.cos()));
}

#[test]
fn test_trig_cos_rev() {
    //y=3*cos(x) where x=2
    //y'=-3*sin(x) where x=2
    //y''=-3*cos(x) where x=2
    let mut g = Graph::new();
    let l0 = leaf(&mut g, 2.).active(&mut g);
    let l1 = leaf(&mut g, 3.);
    let c = Cos(&mut g, l0);
    let a = Mul(&mut g, c, l1);

    {
        let d = a
            .rev(&mut g)
            .get(&l0)
            .expect("l0 adjoint missing")
            .apply_fwd(&mut g, &unit);

        assert!(eq_f32(num(d), -3.0 * 2f32.sin()));
    }

    {
        let dd = a
            .rev(&mut g)
            .get(&l0)
            .expect("l0 adjoint missing")
            .rev(&mut g)
            .get(&l0)
            .expect("l0 adjoint missing")
            .apply_fwd(&mut g, &unit);

        assert!(eq_f32(num(dd), -3.0 * 2f32.cos()));
    }
}

#[test]
fn test_exp_fwd() {
    //y=3*exp(4x) where x=2
    //y'=12*exp(4x) where x=2
    //y''=48*exp(4x) where x=2
    let (mut g, l0, l1, l2) = three_leaves();
    let inner = Mul(&mut g, l2, l0);
    let e = Exp(&mut g, inner);
    let a = Mul(&mut g, e, l1);

    {
        let d = a.fwd(&mut g).apply_fwd(&mut g, &unit);
        assert!(eq_f32(num(d), 12. * 8f32.exp()));
    }
    {
        let dd = a.fwd(&mut g).fwd(&mut g).apply_fwd(&mut g, &unit);
        assert!(eq_f32(num(dd), 48. * 8f32.exp()));
    }
}

#[test]
fn test_exp_rev() {
    //y=3*exp(4x) where x=2
    //y'=12*exp(4x) where x=2
    //y''=48*exp(4x) where x=2
    let (mut g, l0, l1, l2) = three_leaves();
    let inner = Mul(&mut g, l2, l0);
    let e = Exp(&mut g, inner);
    let a = Mul(&mut g, e, l1);

    {
        let d = a
            .rev(&mut g)
            .get(&l0)
            .expect("l0 adjoint missing")
            .apply_fwd(&mut g, &unit);
        assert!(eq_f32(num(d), 12. * 8f32.exp()));
    }
    {
        let dd = a
            .rev(&mut g)
            .get(&l0)
            .expect("l0 adjoint missing")
            .rev(&mut g)
            .get(&l0)
            .expect("l0 adjoint missing")
            .apply_fwd(&mut g, &unit);
        assert!(eq_f32(num(dd), 48. * 8f32.exp()));
    }
}

#[test]
fn test_div_fwd() {
    //y=3/(4x) where x=2
    //y'=-3/4*x^-2
    //y''=6/4*x^-3
    let (mut g, l0, l1, l2) = three_leaves();
    let inner = Mul(&mut g, l2, l0);
    let a = Div(&mut g, l1, inner);

    {
        let d = a.fwd(&mut g).apply_fwd(&mut g, &unit);
        assert!(eq_f32(num(d), -3. / 4. * 2f32.powi(-2)));
    }
    {
        let dd = a.fwd(&mut g).fwd(&mut g).apply_fwd(&mut g, &unit);
        assert!(eq_f32(num(dd), 6. / 4. * 2f32.powi(-3)));
    }
}

#[test]
fn test_div_rev() {
    //y=3/(4x) where x=2
    //y'=-3/4*x^-2
    //y''=6/4*x^-3
    let (mut g, l0, l1, l2) = three_leaves();
    let inner = Mul(&mut g, l2, l0);
    let a = Div(&mut g, l1, inner);

    {
        let d = a
            .rev(&mut g)
            .get(&l0)
            .expect("l0 adjoint missing")
            .apply_fwd(&mut g, &unit);

        assert!(eq_f32(num(d), -3. / 4. * 2f32.powi(-2)));
    }

    {
        let dd = a
            .rev(&mut g)
            .get(&l0)
            .expect("l0 adjoint missing")
            .rev(&mut g)
            .get(&l0)
            .expect("l0 adjoint missing")
            .apply_fwd(&mut g, &unit);

        assert!(eq_f32(num(dd), 6. / 4. * 2f32.powi(-3)));
    }
}

#[test]
fn test_tan_fwd() {
    //y=3tan(4x) where x=2
    //y'=12/(cos(4x))^2 where x=2
    let (mut g, l0, l1, l2) = three_leaves();
    let inner = Mul(&mut g, l2, l0);
    let t = Tan(&mut g, inner);
    let a = Mul(&mut g, l1, t);

    let d = a.fwd(&mut g).apply_fwd(&mut g, &unit);
    assert!(eq_f32(num(d), 12. / (8f32.cos().powi(2))));
}

#[test]
fn test_tan_rev() {
    //y=3tan(4x) where x=2
    //y'=12/(cos(4x))^2 where x=2
    let (mut g, l0, l1, l2) = three_leaves();
    let inner = Mul(&mut g, l2, l0);
    let t = Tan(&mut g, inner);
    let a = Mul(&mut g, l1, t);

    let d = a
        .rev(&mut g)
        .get(&l0)
        .expect("l0 adjoint missing")
        .apply_fwd(&mut g, &unit);

    assert!(eq_f32(num(d), 12. / (8f32.cos().powi(2))));
}

#[test]
fn test_ln_fwd() {
    //y=ln(4x) where x=2
    //y'=4/(4x) where x=2
    let mut g = Graph::new();
    let l0 = leaf(&mut g, 2.).active(&mut g);
    let l1 = leaf(&mut g, 4.);
    let inner = Mul(&mut g, l0, l1);
    let a = Ln(&mut g, inner);

    let d = a.fwd(&mut g).apply_fwd(&mut g, &unit);

    assert!(eq_f32(num(d), 4. / 8.));
}

#[test]
fn test_ln_rev() {
    //y=ln(4x) where x=2
    //y'=4/(4x) where x=2
    let mut g = Graph::new();
    let l0 = leaf(&mut g, 2.).active(&mut g);
    let l1 = leaf(&mut g, 4.);
    let inner = Mul(&mut g, l0, l1);
    let a = Ln(&mut g, inner);

    let d = a
        .rev(&mut g)
        .get(&l0)
        .expect("l0 adjoint missing")
        .apply_fwd(&mut g, &unit);

    assert!(eq_f32(num(d), 4. / 8.));
}

/// Leaves x = 2 (active), 4 and 3, as the tests of the power use them.
fn power_leaves() -> (Graph, PtrVWrap, PtrVWrap, PtrVWrap) {
    let mut g = Graph::new();
    let l0 = leaf(&mut g, 2.).active(&mut g);
    let l1 = leaf(&mut g, 4.);
    let l2 = leaf(&mut g, 3.);
    (g, l0, l1, l2)
}

#[test]
fn test_pow_fwd() {
    //y=4x^3 where x=2
    //y'=12*x^2 where x=2
    let (mut g, l0, l1, l2) = power_leaves();
    let p = Pow(&mut g, l0, l2);
    let a = Mul(&mut g, l1, p);

    let d = a.fwd(&mut g).apply_fwd(&mut g, &unit);
    assert!(eq_f32(num(d), 12. * 4.));
}

#[test]
fn test_pow_fwd_2() {
    //y=4^(3x) where x=2
    //y'=ln(4)*4^(3x)*3 where x=2
    let (mut g, l0, l1, l2) = power_leaves();
    let e = Mul(&mut g, l2, l0);
    let a = Pow(&mut g, l1, e);

    let d = a.fwd(&mut g).apply_fwd(&mut g, &unit);
    assert!(eq_f32(num(d), 4f32.ln() * 4f32.powf(3. * 2.) * 3.));
}

#[test]
fn test_pow_rev() {
    //y=4x^3 where x=2
    //y'=12*x^2 where x=2
    let (mut g, l0, l1, l2) = power_leaves();
    let p = Pow(&mut g, l0, l2);
    let a = Mul(&mut g, l1, p);

    let d = a
        .rev(&mut g)
        .get(&l0)
        .expect("l0 adjoint missing")
        .apply_fwd(&mut g, &unit);

    assert!(eq_f32(num(d), 12. * 4.));
}

#[test]
fn test_pow_rev_2() {
    //y=4^(3x) where x=2
    //y'=ln(4)*4^(3x)*3 where x=2
    let (mut g, l0, l1, l2) = power_leaves();
    let e = Mul(&mut g, l2, l0);
    let a = Pow(&mut g, l1, e);

    let d = a
        .rev(&mut g)
        .get(&l0)
        .expect("l0 adjoint missing")
        .apply_fwd(&mut g, &unit);

    assert!(eq_f32(num(d), 4f32.ln() * 4f32.powf(3. * 2.) * 3.));
}
