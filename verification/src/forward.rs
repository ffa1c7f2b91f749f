//! Forward mode: the value of an expression, and the graph of its tangent.
use vstd::prelude::*;
use crate::graph::{
    at, env_of, grown, keeps_terms, lemma_same_expressions, node_ok, same_expressions, term_of,
    Graph, Minus, NodeView, PtrVWrap,
};
use crate::operation::{evaluate, lemma_value_outline, outline, Op};
use crate::term::{Env, cosine, exponential, lit, logarithm, minus, over, plus, power, sine, times};
use crate::valtype::{
    answers, blank, computes, Arithmetic, EvalError, FloatCall, ValType, MINUS_ONE, ONE, ZERO,
};

verus! {

/// `b` is `a` after an evaluation: only values have changed, and none of a
/// leaf or a constant.
pub open spec fn reevaluated(a: Seq<NodeView>, b: Seq<NodeView>) -> bool {
    &&& a.len() == b.len()
    &&& forall|i: int|
        0 <= i < a.len() ==> #[trigger] b[i] == (NodeView { val: b[i].val, ..a[i] }) && ((a[i].op
            == Op::Leaf || a[i].op == Op::Const) ==> b[i].val == a[i].val)
}

/// The nodes that join the tangents `da` and `db` of the inputs `a` and `b`
/// of a node with the operation `op` to the tangent of that node, when they
/// are added from the position `base` on. The last of them stands for the
/// tangent. The operations with one input use `a` and `da` alone, the sine
/// and the cosine `a` alone.
pub open spec fn joining_nodes(
    op: Op,
    a: PtrVWrap,
    b: PtrVWrap,
    da: PtrVWrap,
    db: PtrVWrap,
    base: int,
) -> Seq<NodeView> {
    match op {
        Op::Add => seq![NodeView::over(Op::Add, da, db)],
        Op::Mul => seq![
            NodeView::over(Op::Mul, da, b),
            NodeView::over(Op::Mul, a, db),
            NodeView::over(Op::Add, at(base, 0), at(base, 1)),
        ],
        Op::Div => seq![
            NodeView::over(Op::Mul, da, b),
            NodeView::over(Op::Mul, a, db),
            NodeView::number(MINUS_ONE),
            NodeView::over(Op::Mul, at(base, 1), at(base, 2)),
            NodeView::over(Op::Add, at(base, 0), at(base, 3)),
            NodeView::over(Op::Mul, b, b),
            NodeView::over(Op::Div, at(base, 4), at(base, 5)),
        ],
        Op::Pow => seq![
            NodeView::over(Op::Pow, a, b),
            NodeView::of(Op::Ln, a),
            NodeView::over(Op::Mul, db, at(base, 1)),
            NodeView::over(Op::Div, b, a),
            NodeView::over(Op::Mul, at(base, 3), da),
            NodeView::over(Op::Add, at(base, 2), at(base, 4)),
            NodeView::over(Op::Mul, at(base, 0), at(base, 5)),
        ],
        Op::Sin => seq![NodeView::of(Op::Cos, a)],
        Op::Cos => seq![
            NodeView::number(MINUS_ONE),
            NodeView::of(Op::Sin, a),
            NodeView::over(Op::Mul, at(base, 0), at(base, 1)),
        ],
        Op::Tan => seq![
            NodeView::number(ONE),
            NodeView::of(Op::Cos, a),
            NodeView::of(Op::Cos, a),
            NodeView::over(Op::Mul, at(base, 1), at(base, 2)),
            NodeView::over(Op::Div, at(base, 0), at(base, 3)),
            NodeView::over(Op::Mul, at(base, 4), da),
        ],
        Op::Exp => seq![NodeView::of(Op::Exp, a), NodeView::over(Op::Mul, at(base, 0), da)],
        Op::Ln => seq![
            NodeView::number(ONE),
            NodeView::over(Op::Div, at(base, 0), a),
            NodeView::over(Op::Mul, at(base, 1), da),
        ],
        Op::Leaf => seq![NodeView::of(Op::Link, a)],
        Op::Const | Op::Zero | Op::One | Op::Link => seq![
            NodeView::plain(Op::Zero, Seq::empty(), Some(ValType::F(ZERO))),
        ],
    }
}

/// The nodes that the tangent of the node at `n` adds to the arena `s`,
/// when they are added from the position `base` on: the tangent of the
/// first input where the rule asks for it, then that of the second, then
/// the nodes that join them. The last node stands for the tangent.
pub open spec fn tangent_nodes(s: Seq<NodeView>, n: int, base: int) -> Seq<NodeView>
    decreases n,
{
    if 0 <= n < s.len() {
        match s[n].op {
            Op::Add | Op::Mul | Op::Div | Op::Pow => {
                if s[n].inp.len() == 2 && s[n].inp[0].0 < n && s[n].inp[1].0 < n {
                    let first = tangent_nodes(s, s[n].inp[0].0 as int, base);
                    let second = tangent_nodes(s, s[n].inp[1].0 as int, base + first.len());
                    let end = base + first.len() + second.len();
                    first + second + joining_nodes(
                        s[n].op,
                        s[n].inp[0],
                        s[n].inp[1],
                        at(base + first.len(), -1),
                        at(end, -1),
                        end,
                    )
                } else {
                    Seq::empty()
                }
            },
            Op::Tan | Op::Exp | Op::Ln => {
                if s[n].inp.len() == 1 && s[n].inp[0].0 < n {
                    let first = tangent_nodes(s, s[n].inp[0].0 as int, base);
                    let end = base + first.len();
                    first + joining_nodes(
                        s[n].op,
                        s[n].inp[0],
                        s[n].inp[0],
                        at(end, -1),
                        at(end, -1),
                        end,
                    )
                } else {
                    Seq::empty()
                }
            },
            Op::Sin | Op::Cos => joining_nodes(
                s[n].op,
                s[n].inp[0],
                s[n].inp[0],
                s[n].inp[0],
                s[n].inp[0],
                base,
            ),
            _ => {
                let me = PtrVWrap(n as usize);
                joining_nodes(s[n].op, me, me, me, me, base)
            },
        }
    } else {
        Seq::empty()
    }
}

/// The nodes of a tangent depend only on the arena at and below the node.
pub proof fn lemma_tangent_nodes_frame(a: Seq<NodeView>, b: Seq<NodeView>, n: int, base: int)
    requires
        0 <= n < a.len(),
        n < b.len(),
        forall|i: int| 0 <= i <= n ==> (#[trigger] b[i]).op == a[i].op && b[i].inp == a[i].inp,
    ensures
        tangent_nodes(b, n, base) == tangent_nodes(a, n, base),
    decreases n,
{
    assert(b[n].op == a[n].op && b[n].inp == a[n].inp);
    match a[n].op {
        Op::Add | Op::Mul | Op::Div | Op::Pow => {
            if a[n].inp.len() == 2 && a[n].inp[0].0 < n && a[n].inp[1].0 < n {
                lemma_tangent_nodes_frame(a, b, a[n].inp[0].0 as int, base);
                let first = tangent_nodes(a, a[n].inp[0].0 as int, base);
                lemma_tangent_nodes_frame(a, b, a[n].inp[1].0 as int, base + first.len());
            }
        },
        Op::Tan | Op::Exp | Op::Ln => {
            if a[n].inp.len() == 1 && a[n].inp[0].0 < n {
                lemma_tangent_nodes_frame(a, b, a[n].inp[0].0 as int, base);
            }
        },
        _ => {},
    }
}

/// Adds the nodes that join the tangents of the inputs of a node to the
/// tangent of the node, for the operations that take more than one node to
/// join them.
fn join(g: &mut Graph, op: Op, a: PtrVWrap, b: PtrVWrap, da: PtrVWrap, db: PtrVWrap) -> (r:
    PtrVWrap)
    requires
        old(g).wf(),
        old(g).has(a),
        old(g).has(b),
        old(g).has(da),
        old(g).has(db),
        op == Op::Mul || op == Op::Div || op == Op::Pow || op == Op::Cos || op == Op::Tan || op
            == Op::Exp || op == Op::Ln,
    ensures
        final(g).wf(),
        final(g)@ == old(g)@ + joining_nodes(op, a, b, da, db, old(g)@.len() as int),
        r.0 == final(g)@.len() - 1,
        grown(old(g)@, final(g)@),
        keeps_terms(old(g)@, final(g)@),
        final(g).env() == old(g).env(),
        final(g).term(r) == (match op {
            Op::Mul => plus(
                times(old(g).term(da), old(g).term(b)),
                times(old(g).term(a), old(g).term(db)),
            ),
            Op::Div => over(
                minus(
                    times(old(g).term(da), old(g).term(b)),
                    times(old(g).term(a), old(g).term(db)),
                ),
                times(old(g).term(b), old(g).term(b)),
            ),
            Op::Pow => times(
                power(old(g).term(a), old(g).term(b)),
                plus(
                    times(old(g).term(db), logarithm(old(g).term(a))),
                    times(over(old(g).term(b), old(g).term(a)), old(g).term(da)),
                ),
            ),
            Op::Cos => times(lit(MINUS_ONE), sine(old(g).term(a))),
            Op::Tan => times(
                over(lit(ONE), times(cosine(old(g).term(a)), cosine(old(g).term(a)))),
                old(g).term(da),
            ),
            Op::Exp => times(exponential(old(g).term(a)), old(g).term(da)),
            _ => times(over(lit(ONE), old(g).term(a)), old(g).term(da)),
        }),
{
    let ghost base = g@.len() as int;
    let r = match op {
        Op::Mul => {
            let m1 = g.binary(Op::Mul, da, b);
            let m2 = g.binary(Op::Mul, a, db);
            g.binary(Op::Add, m1, m2)
        },
        Op::Div => {
            let m1 = g.binary(Op::Mul, da, b);
            let m2 = g.binary(Op::Mul, a, db);
            let numerator = Minus(g, m1, m2);
            let denominator = g.binary(Op::Mul, b, b);
            g.binary(Op::Div, numerator, denominator)
        },
        Op::Pow => {
            let p = g.binary(Op::Pow, a, b);
            let l = g.unary(Op::Ln, a);
            let m1 = g.binary(Op::Mul, db, l);
            let q = g.binary(Op::Div, b, a);
            let m2 = g.binary(Op::Mul, q, da);
            let s = g.binary(Op::Add, m1, m2);
            g.binary(Op::Mul, p, s)
        },
        Op::Cos => {
            let minus_one = g.constant(ValType::F(MINUS_ONE));
            let s = g.unary(Op::Sin, a);
            g.binary(Op::Mul, minus_one, s)
        },
        Op::Tan => {
            let one = g.constant(ValType::F(ONE));
            let c1 = g.unary(Op::Cos, a);
            let c2 = g.unary(Op::Cos, a);
            let m = g.binary(Op::Mul, c1, c2);
            let d = g.binary(Op::Div, one, m);
            g.binary(Op::Mul, d, da)
        },
        Op::Exp => {
            let e = g.unary(Op::Exp, a);
            g.binary(Op::Mul, e, da)
        },
        _ => {
            let one = g.constant(ValType::F(ONE));
            let d = g.binary(Op::Div, one, a);
            g.binary(Op::Mul, d, da)
        },
    };
    assert(g@ =~= old(g)@ + joining_nodes(op, a, b, da, db, base));
    r
}

/// Builds the tangent of a node with two inputs: the tangents of the
/// inputs, and the nodes that join them.
fn tangent_of_two(g: &mut Graph, n: PtrVWrap) -> (r: PtrVWrap)
    requires
        old(g).wf(),
        old(g).has(n),
        old(g)@[n.0 as int].op.arity() == 2,
    ensures
        final(g).wf(),
        final(g)@ == old(g)@ + tangent_nodes(old(g)@, n.0 as int, old(g)@.len() as int),
        r.0 == final(g)@.len() - 1,
        final(g).has(r),
        final(g).term(r) == old(g).term(n).tangent(),
        grown(old(g)@, final(g)@),
        keeps_terms(old(g)@, final(g)@),
        final(g).env() == old(g).env(),
    decreases n.0, 0int,
{
    let op = g.operation(n);
    let ghost start = g@;
    let ghost base = g@.len() as int;
    assert(node_ok(g@, n.0 as int));
    let a = g.input(n, 0);
    let b = g.input(n, 1);
    let ghost first = tangent_nodes(start, a.0 as int, base);
    let ghost second = tangent_nodes(start, b.0 as int, base + first.len());
    let da = a.fwd(g);
    let ghost middle = g@;
    let db = b.fwd(g);
    let ghost late = g@;
    proof {
        lemma_tangent_nodes_frame(start, middle, b.0 as int, middle.len() as int);
        assert(late =~= start + first + second);
        assert(da == at(base + first.len(), -1));
        assert(db == at(base + first.len() + second.len(), -1));
    }
    let r = if let Op::Add = op {
        g.binary(Op::Add, da, db)
    } else {
        join(g, op, a, b, da, db)
    };
    proof {
        let joint = joining_nodes(op, a, b, da, db, late.len() as int);
        assert(g@ =~= late + joint);
        assert(tangent_nodes(start, n.0 as int, base) == first + second + joint);
        assert(g@ =~= start + (first + second + joint));
    }
    r
}

/// Builds the tangent of a tangent function, an exponential or a
/// logarithm: the tangent of the input, and the nodes that join it.
fn tangent_of_one(g: &mut Graph, n: PtrVWrap) -> (r: PtrVWrap)
    requires
        old(g).wf(),
        old(g).has(n),
        old(g)@[n.0 as int].op == Op::Tan || old(g)@[n.0 as int].op == Op::Exp || old(g)@[n.0 as int].op
            == Op::Ln,
    ensures
        final(g).wf(),
        final(g)@ == old(g)@ + tangent_nodes(old(g)@, n.0 as int, old(g)@.len() as int),
        r.0 == final(g)@.len() - 1,
        final(g).has(r),
        final(g).term(r) == old(g).term(n).tangent(),
        grown(old(g)@, final(g)@),
        keeps_terms(old(g)@, final(g)@),
        final(g).env() == old(g).env(),
    decreases n.0, 0int,
{
    let op = g.operation(n);
    let ghost start = g@;
    let ghost base = g@.len() as int;
    assert(node_ok(g@, n.0 as int));
    let a = g.input(n, 0);
    let ghost first = tangent_nodes(start, a.0 as int, base);
    let da = a.fwd(g);
    let ghost middle = g@;
    let r = join(g, op, a, a, da, da);
    proof {
        let joint = joining_nodes(op, a, a, da, da, middle.len() as int);
        assert(da == at(base + first.len(), -1));
        assert(tangent_nodes(start, n.0 as int, base) == first + joint);
        assert(g@ =~= start + (first + joint));
    }
    r
}

impl PtrVWrap {
    /// Builds the tangent of the node: new nodes that stand for the
    /// derivative of its expression in the direction of the active leaves.
    /// Nothing is computed, and the nodes that were there are left as they
    /// are. The tangent is an expression like any other: it can be
    /// evaluated, and differentiated again in either mode.
    pub fn fwd(&self, g: &mut Graph) -> (r: PtrVWrap)
        requires
            old(g).wf(),
            old(g).has(*self),
        ensures
            final(g).wf(),
            final(g)@ == old(g)@ + tangent_nodes(old(g)@, self.0 as int, old(g)@.len() as int),
            r.0 == final(g)@.len() - 1,
            final(g).has(r),
            final(g).term(r) == old(g).term(*self).tangent(),
            grown(old(g)@, final(g)@),
            keeps_terms(old(g)@, final(g)@),
            final(g).env() == old(g).env(),
        decreases self.0, 1int,
    {
        let op = g.operation(*self);
        let ghost start = g@;
        let ghost base = g@.len() as int;
        assert(node_ok(g@, self.0 as int));
        match op {
            Op::Leaf => {
                let r = g.link(*self);
                assert(g@ =~= start + tangent_nodes(start, self.0 as int, base));
                r
            },
            Op::Const | Op::Zero | Op::One | Op::Link => {
                let r = g.zero(Some(ValType::F(ZERO)));
                assert(g@ =~= start + tangent_nodes(start, self.0 as int, base));
                r
            },
            Op::Sin => {
                let a = g.input(*self, 0);
                let r = g.unary(Op::Cos, a);
                assert(g@ =~= start + tangent_nodes(start, self.0 as int, base));
                r
            },
            Op::Cos => {
                let a = g.input(*self, 0);
                join(g, op, a, a, a, a)
            },
            Op::Add | Op::Mul | Op::Div | Op::Pow => tangent_of_two(g, *self),
            Op::Tan | Op::Exp | Op::Ln => tangent_of_one(g, *self),
        }
    }
}

/// The node at `m` is the node at `n` or stands below it: it is an input of
/// it, or an input of an input, and so on.
pub open spec fn below(s: Seq<NodeView>, n: int, m: int) -> bool
    decreases n,
{
    if n == m {
        true
    } else if 0 <= n < s.len() {
        (s[n].inp.len() >= 1 && s[n].inp[0].0 < n && below(s, s[n].inp[0].0 as int, m)) || (
        s[n].inp.len() >= 2 && s[n].inp[1].0 < n && below(s, s[n].inp[1].0 as int, m))
    } else {
        false
    }
}

/// `held` is a value that an evaluation with `unit` may leave in the node
/// at `m` of the arena `s`: it is the value of the node's term under any
/// arithmetic that `unit` computes, and differs from it under the blank
/// arithmetic at most in the digits of a single-precision number.
pub open spec fn computed<U: Fn(FloatCall) -> u32>(
    s: Seq<NodeView>,
    m: int,
    held: Option<ValType>,
    unit: &U,
) -> bool {
    &&& held is Some
    &&& outline(Ok(held->0)) == outline(term_of(s, m).value(env_of(s), blank()))
    &&& forall|u: Arithmetic|
        computes(unit, u) ==> Ok::<ValType, EvalError>(held->0) == term_of(s, m).value(
            env_of(s),
            u,
        )
}

/// What stands below a node depends on the inputs alone.
pub proof fn lemma_below_frame(a: Seq<NodeView>, b: Seq<NodeView>, n: int, m: int)
    requires
        a.len() == b.len(),
        forall|i: int| 0 <= i < a.len() ==> (#[trigger] b[i]).inp == a[i].inp,
    ensures
        below(b, n, m) == below(a, n, m),
    decreases n,
{
    if n != m && 0 <= n < a.len() {
        assert(b[n].inp == a[n].inp);
        if a[n].inp.len() >= 1 && a[n].inp[0].0 < n {
            lemma_below_frame(a, b, a[n].inp[0].0 as int, m);
        }
        if a[n].inp.len() >= 2 && a[n].inp[1].0 < n {
            lemma_below_frame(a, b, a[n].inp[1].0 as int, m);
        }
    }
}

/// A node below another stands at or before it.
pub proof fn lemma_below_bound(s: Seq<NodeView>, n: int, m: int)
    requires
        below(s, n, m),
        0 <= n,
    ensures
        0 <= m <= n,
    decreases n,
{
    if n != m {
        if s[n].inp.len() >= 1 && s[n].inp[0].0 < n && below(s, s[n].inp[0].0 as int, m) {
            lemma_below_bound(s, s[n].inp[0].0 as int, m);
        } else {
            lemma_below_bound(s, s[n].inp[1].0 as int, m);
        }
    }
}

/// An evaluation changes neither the terms of the nodes nor the values and
/// marks of the leaves, nor what stands below a node.
pub proof fn lemma_reevaluated(a: Seq<NodeView>, b: Seq<NodeView>)
    requires
        reevaluated(a, b),
    ensures
        same_expressions(a, b),
        keeps_terms(a, b),
        b.len() == a.len(),
        env_of(b) == env_of(a),
        forall|n: int, m: int| #[trigger] below(b, n, m) == below(a, n, m),
{
    assert forall|i: int| 0 <= i < a.len() implies (#[trigger] b[i]).op == a[i].op && b[i].inp
        == a[i].inp && b[i].active == a[i].active && ((a[i].op == Op::Leaf || a[i].op == Op::Const)
        ==> b[i].val == a[i].val) by {
        assert(b[i] == (NodeView { val: b[i].val, ..a[i] }));
    }
    lemma_same_expressions(a, b);
    assert forall|n: int, m: int| #[trigger] below(b, n, m) == below(a, n, m) by {
        lemma_below_frame(a, b, n, m);
    }
}

impl PtrVWrap {
    /// Computes the value of the node: first the value of each input in
    /// order, then its own by the rule of its operation, which it stores and
    /// returns. Every value is computed anew from the leaves, whatever the
    /// nodes held before; the first fault met ends the evaluation.
    ///
    /// Under any arithmetic that `unit` computes, the result is the value of
    /// the term that the node stands for. Whatever `unit` answers, the
    /// result differs from that value at most in the digits of a
    /// single-precision number: whether there is a value, its type, every
    /// integer and the fault are as under the blank arithmetic.
    ///
    /// Nothing but values changes in the graph, and only in nodes at or
    /// below this one. Where there is a result, each of those nodes holds
    /// the value computed for it.
    pub fn apply_fwd<U: Fn(FloatCall) -> u32>(&self, g: &mut Graph, unit: &U) -> (r: Result<
        ValType,
        EvalError,
    >)
        requires
            old(g).wf(),
            old(g).has(*self),
            answers(unit),
        ensures
            final(g).wf(),
            reevaluated(old(g)@, final(g)@),
            forall|u: Arithmetic|
                computes(unit, u) ==> r == old(g).term(*self).value(old(g).env(), u),
            outline(r) == outline(old(g).term(*self).value(old(g).env(), blank())),
            r matches Ok(v) ==> final(g)@[self.0 as int].val == Some(v),
            forall|m: int|
                0 <= m < old(g)@.len() && !below(old(g)@, self.0 as int, m)
                    ==> #[trigger] final(g)@[m] == old(g)@[m],
            r is Ok ==> forall|m: int|
                #[trigger] below(old(g)@, self.0 as int, m) ==> computed(
                    old(g)@,
                    m,
                    final(g)@[m].val,
                    unit,
                ),
        decreases self.0,
    {
        let op = g.operation(*self);
        let count = g.input_count(*self);
        let ghost start = g@;
        let ghost env = g.env();
        let ghost me = self.0 as int;
        assert(node_ok(g@, me));
        let mut args: Vec<(ValType, bool)> = Vec::new();
        let ghost mut blank_args: Seq<(ValType, bool)> = Seq::empty();
        if count >= 1 {
            let a = g.input(*self, 0);
            let ghost ta = g.term(a);
            assert(node_ok(g@, a.0 as int));
            match a.apply_fwd(g, unit) {
                Err(e) => {
                    return Err(e);
                },
                Ok(v) => {
                    args.push((v, g.is_active(a)));
                },
            }
            proof {
                lemma_reevaluated(start, g@);
                blank_args = blank_args.push((ta.value(env, blank())->Ok_0, false));
            }
        }
        let ghost middle = g@;
        if count >= 2 {
            let b = g.input(*self, 1);
            let ghost tb = g.term(b);
            match b.apply_fwd(g, unit) {
                Err(e) => {
                    proof {
                        lemma_reevaluated(start, g@);
                    }
                    return Err(e);
                },
                Ok(v) => {
                    args.push((v, g.is_active(b)));
                },
            }
            proof {
                lemma_reevaluated(start, g@);
                blank_args = blank_args.push((tb.value(env, blank())->Ok_0, false));
            }
        }
        let ghost late = g@;
        let prev = g.value(*self);
        proof {
            if op.arity() >= 1 && op != Op::Link {
                lemma_value_outline(op, args@, blank_args, prev, None, blank(), blank());
            }
        }
        match evaluate(op, &args, prev, unit) {
            Err(e) => Err(e),
            Ok(v) => {
                g.store(*self, v);
                proof {
                    assert(computed(start, me, Some(v), unit));
                    assert forall|m: int| #[trigger] below(start, me, m) implies computed(
                        start,
                        m,
                        g@[m].val,
                        unit,
                    ) by {
                        lemma_below_bound(start, me, m);
                        if m != me {
                            let a = start[me].inp[0].0 as int;
                            if count >= 2 && below(start, start[me].inp[1].0 as int, m) {
                                let b = start[me].inp[1].0 as int;
                                lemma_below_bound(start, b, m);
                                assert(below(middle, b, m));
                                assert(computed(middle, m, late[m].val, unit));
                                assert(term_of(middle, m) == term_of(start, m));
                            } else {
                                lemma_below_bound(start, a, m);
                                assert(below(start, a, m));
                                assert(computed(start, m, middle[m].val, unit));
                                if count >= 2 {
                                    assert(!below(middle, start[me].inp[1].0 as int, m));
                                    assert(late[m] == middle[m]);
                                }
                            }
                        }
                    }
                }
                Ok(v)
            },
        }
    }
}

/// Values follow the leaves. Let the leaf at `x` of the arena `s` be given
/// the value `v`, and let `later` differ from that arena at most in values
/// that evaluation overwrites and in adjoints. Then every node of `s`
/// stands in `later` for the term it stood for, and the value of that term
/// is its value where `x` holds `v`: an expression built once is evaluated
/// at as many points as the leaves are given values.
pub proof fn lemma_value_follows_leaf(
    s: Seq<NodeView>,
    later: Seq<NodeView>,
    x: int,
    v: ValType,
    n: int,
    u: Arithmetic,
)
    requires
        0 <= x < s.len(),
        s[x].op == Op::Leaf,
        0 <= n < s.len(),
        same_expressions(s.update(x, NodeView { val: Some(v), ..s[x] }), later),
    ensures
        term_of(later, n) == term_of(s, n),
        term_of(later, n).value(env_of(later), u) == term_of(s, n).value(
            Env { values: env_of(s).values.insert(x, v), active: env_of(s).active },
            u,
        ),
{
    let given = s.update(x, NodeView { val: Some(v), ..s[x] });
    lemma_same_expressions(given, later);
    crate::graph::lemma_term_frame(s, given, n);
    assert(term_of(later, n) == term_of(given, n));
    assert(env_of(given).values =~= env_of(s).values.insert(x, v));
    assert(env_of(given).active =~= env_of(s).active);
}

/// No value is ever missing in a well-formed arena: every leaf and constant
/// holds one, so no node evaluates to that fault.
pub proof fn lemma_no_value_missing(s: Seq<NodeView>, n: int, u: Arithmetic)
    requires
        crate::graph::well_formed(s),
        0 <= n < s.len(),
    ensures
        term_of(s, n).value(env_of(s), u) != Err::<ValType, EvalError>(EvalError::MissingValue),
    decreases n,
{
    assert(node_ok(s, n));
    if s[n].op.arity() >= 1 && s[n].op != Op::Link {
        lemma_no_value_missing(s, s[n].inp[0].0 as int, u);
    }
    if s[n].op.arity() >= 2 {
        lemma_no_value_missing(s, s[n].inp[1].0 as int, u);
    }
}

} // verus!
