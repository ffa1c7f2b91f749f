//! What the derivatives mean: the tangent and the adjoints of an expression
//! held against its partial derivatives, in exact arithmetic.
//!
//! The statements speak of polynomial expressions, built from leaves, 0, 1,
//! seeds, sums and products, and of their values over the integers, where
//! sums and products are exact. An arithmetic unit computes these values
//! as far as it is exact itself: single precision on the integers up to
//! 2^24.
use vstd::prelude::*;
use crate::graph::{node_ok, term_of, well_formed, NodeView, PtrVWrap};
use crate::operation::Op;
use crate::reverse::{
    begin, enough, handed_down, held_or_zero, holds, reverse_pass, run, terms_of, visit, Pass,
};
use crate::term::{adjoints, plus, Env, Term};
use crate::valtype::{Arithmetic, EvalError, FloatCall, ValType, ONE, ZERO};

verus! {

/// The values of the leaves: the value of the leaf at each position.
pub type Point = spec_fn(int) -> int;

impl Term {
    /// The term is built from leaves, 0, 1, seeds, sums and products.
    pub open spec fn polynomial(self) -> bool
        decreases self,
    {
        match self {
            Term::Var(_) | Term::Zero | Term::One | Term::Seed(_) => true,
            Term::Bin(op, a, b) => (op == Op::Add || op == Op::Mul) && a.polynomial()
                && b.polynomial(),
            Term::Lit(_) | Term::Un(_, _) => false,
        }
    }

    /// The value of the term in exact arithmetic, where the leaves hold
    /// `at` and the leaves in `active` are active. What is no part of a
    /// polynomial term counts as 0.
    pub open spec fn exact(self, at: Point, active: Set<int>) -> int
        decreases self,
    {
        match self {
            Term::Var(x) => at(x),
            Term::Lit(_) => 0,
            Term::Zero => 0,
            Term::One => 1,
            Term::Seed(x) => if active.contains(x) {
                1
            } else {
                0
            },
            Term::Bin(op, a, b) => if op == Op::Add {
                a.exact(at, active) + b.exact(at, active)
            } else if op == Op::Mul {
                a.exact(at, active) * b.exact(at, active)
            } else {
                0
            },
            Term::Un(_, _) => 0,
        }
    }

    /// The partial derivative of the term by the leaf `x` in closed form:
    /// 1 for the leaf itself, 0 for any other leaf, constant or seed, the
    /// sum of the derivatives for a sum, and `a' * b + a * b'` for a
    /// product.
    pub open spec fn partial(self, x: int, at: Point, active: Set<int>) -> int
        decreases self,
    {
        match self {
            Term::Var(y) => if y == x {
                1
            } else {
                0
            },
            Term::Bin(op, a, b) => if op == Op::Add {
                a.partial(x, at, active) + b.partial(x, at, active)
            } else if op == Op::Mul {
                a.partial(x, at, active) * b.exact(at, active) + a.exact(at, active) * b.partial(
                    x,
                    at,
                    active,
                )
            } else {
                0
            },
            _ => 0,
        }
    }

    /// What the value of the term gains beyond the first order when the
    /// leaf `x` moves by `h`, divided by `h * h`.
    pub open spec fn curvature(self, x: int, h: int, at: Point, active: Set<int>) -> int
        decreases self,
    {
        match self {
            Term::Bin(op, a, b) => {
                let va = a.exact(at, active);
                let vb = b.exact(at, active);
                let da = a.partial(x, at, active);
                let db = b.partial(x, at, active);
                let ca = a.curvature(x, h, at, active);
                let cb = b.curvature(x, h, at, active);
                if op == Op::Add {
                    ca + cb
                } else if op == Op::Mul {
                    va * cb + ca * vb + da * db + h * (da * cb + ca * db) + h * h * (ca * cb)
                } else {
                    0
                }
            },
            _ => 0,
        }
    }
}

/// The point `at` with the leaf `x` moved by `h`.
pub open spec fn moved(at: Point, x: int, h: int) -> Point {
    |y: int|
        if y == x {
            at(y) + h
        } else {
            at(y)
        }
}

/// The sum of two expansions to the second order.
proof fn lemma_sum_expands(va: int, da: int, ca: int, vb: int, db: int, cb: int, h: int)
    ensures
        (va + h * da + h * h * ca) + (vb + h * db + h * h * cb) == (va + vb) + h * (da + db) + h
            * h * (ca + cb),
{
    assert(h * (da + db) == h * da + h * db) by (nonlinear_arith);
    assert(h * h * (ca + cb) == h * h * ca + h * h * cb) by (nonlinear_arith);
}

/// The product of two expansions to the second order.
proof fn lemma_product_expands(va: int, da: int, ca: int, vb: int, db: int, cb: int, h: int)
    ensures
        (va + h * da + h * h * ca) * (vb + h * db + h * h * cb) == va * vb + h * (da * vb + va
            * db) + h * h * (va * cb + ca * vb + da * db + h * (da * cb + ca * db) + h * h * (ca
            * cb)),
{
    let x = h * da;
    let y = h * h * ca;
    let z = h * db;
    let w = h * h * cb;
    assert((va + x + y) * (vb + z + w) == va * vb + va * z + va * w + x * vb + x * z + x * w + y
        * vb + y * z + y * w) by (nonlinear_arith);
    assert(va * z == h * (va * db)) by (nonlinear_arith)
        requires
            z == h * db,
    ;
    assert(x * vb == h * (da * vb)) by (nonlinear_arith)
        requires
            x == h * da,
    ;
    assert(va * w == h * h * (va * cb)) by (nonlinear_arith)
        requires
            w == h * h * cb,
    ;
    assert(y * vb == h * h * (ca * vb)) by (nonlinear_arith)
        requires
            y == h * h * ca,
    ;
    assert(x * z == h * h * (da * db)) by (nonlinear_arith)
        requires
            x == h * da,
            z == h * db,
    ;
    assert(x * w == h * h * (h * (da * cb))) by (nonlinear_arith)
        requires
            x == h * da,
            w == h * h * cb,
    ;
    assert(y * z == h * h * (h * (ca * db))) by (nonlinear_arith)
        requires
            y == h * h * ca,
            z == h * db,
    ;
    assert(y * w == h * h * (h * h * (ca * cb))) by (nonlinear_arith)
        requires
            y == h * h * ca,
            w == h * h * cb,
    ;
    let hh = h * h;
    let w1 = va * cb;
    let w2 = ca * vb;
    let w3 = da * db;
    let w4 = h * (da * cb);
    let w5 = h * (ca * db);
    let w6 = h * h * (ca * cb);
    assert(hh * (w1 + w2 + w3 + (w4 + w5) + w6) == hh * w1 + hh * w2 + hh * w3 + hh * w4 + hh * w5
        + hh * w6) by (nonlinear_arith);
    assert(h * (da * cb + ca * db) == w4 + w5) by (nonlinear_arith)
        requires
            w4 == h * (da * cb),
            w5 == h * (ca * db),
    ;
    assert(h * (da * vb + va * db) == h * (da * vb) + h * (va * db)) by (nonlinear_arith);
}

/// The closed form is the derivative: when the leaf `x` moves by `h`, the
/// exact value of a polynomial term moves by `h` times its partial
/// derivative by `x`, and by a multiple of `h * h`.
pub proof fn lemma_partial_is_derivative(t: Term, x: int, h: int, at: Point, active: Set<int>)
    requires
        t.polynomial(),
    ensures
        t.exact(moved(at, x, h), active) == t.exact(at, active) + h * t.partial(x, at, active) + h
            * h * t.curvature(x, h, at, active),
    decreases t,
{
    match t {
        Term::Bin(op, a, b) => {
            lemma_partial_is_derivative(*a, x, h, at, active);
            lemma_partial_is_derivative(*b, x, h, at, active);
            let va = a.exact(at, active);
            let vb = b.exact(at, active);
            let da = a.partial(x, at, active);
            let db = b.partial(x, at, active);
            let ca = a.curvature(x, h, at, active);
            let cb = b.curvature(x, h, at, active);
            let ma = a.exact(moved(at, x, h), active);
            let mb = b.exact(moved(at, x, h), active);
            if op == Op::Add {
                lemma_sum_expands(va, da, ca, vb, db, cb, h);
            } else {
                lemma_product_expands(va, da, ca, vb, db, cb, h);
            }
        },
        _ => {},
    }
}

/// A function has one derivative: if `d1` and `d2` both are the first-order
/// part of what one number gains when a leaf moves by `h`, for the `h`
/// that is one more than the distance of `d1` and `d2`, then they are equal.
proof fn lemma_one_derivative(d1: int, d2: int, c1: Point, c2: Point)
    requires
        ({
            let h = if d1 >= d2 {
                d1 - d2 + 1
            } else {
                d2 - d1 + 1
            };
            h * d1 + h * h * c1(h) == h * d2 + h * h * c2(h)
        }),
    ensures
        d1 == d2,
{
    let h = if d1 >= d2 {
        d1 - d2 + 1
    } else {
        d2 - d1 + 1
    };
    let k = d1 - d2;
    let q = c2(h) - c1(h);
    assert(k == h * q) by (nonlinear_arith)
        requires
            h * d1 + h * h * c1(h) == h * d2 + h * h * c2(h),
            k == d1 - d2,
            q == c2(h) - c1(h),
            h >= 1,
    ;
    assert(q == 0) by (nonlinear_arith)
        requires
            k == h * q,
            -h < k < h,
            h >= 1,
    ;
    assert(k == 0) by (nonlinear_arith)
        requires
            k == h * q,
            q == 0,
    ;
}

/// The derivative belongs to the values, not to the way a term is written:
/// two polynomial terms with the same exact value at every point have the
/// same partial derivative by every leaf. The active leaves of one term
/// need not be those of the other.
pub proof fn lemma_partial_of_equal_terms(
    s: Term,
    t: Term,
    x: int,
    at: Point,
    active_s: Set<int>,
    active_t: Set<int>,
)
    requires
        s.polynomial(),
        t.polynomial(),
        forall|p: Point| #[trigger] s.exact(p, active_s) == t.exact(p, active_t),
    ensures
        s.partial(x, at, active_s) == t.partial(x, at, active_t),
{
    let d1 = s.partial(x, at, active_s);
    let d2 = t.partial(x, at, active_t);
    let h = if d1 >= d2 {
        d1 - d2 + 1
    } else {
        d2 - d1 + 1
    };
    lemma_partial_is_derivative(s, x, h, at, active_s);
    lemma_partial_is_derivative(t, x, h, at, active_t);
    assert(s.exact(moved(at, x, h), active_s) == t.exact(moved(at, x, h), active_t));
    assert(s.exact(at, active_s) == t.exact(at, active_t));
    let c1 = |k: int| s.curvature(x, k, at, active_s);
    let c2 = |k: int| t.curvature(x, k, at, active_t);
    lemma_one_derivative(d1, d2, c1, c2);
}

/// The tangent of a polynomial term is polynomial.
pub proof fn lemma_tangent_polynomial(t: Term)
    requires
        t.polynomial(),
    ensures
        t.tangent().polynomial(),
    decreases t,
{
    reveal_with_fuel(Term::polynomial, 4);
    match t {
        Term::Bin(_, a, b) => {
            lemma_tangent_polynomial(*a);
            lemma_tangent_polynomial(*b);
        },
        _ => {},
    }
}

/// Forward mode gives the partial derivative: with the leaf `x` alone
/// active, the exact value of the tangent of a polynomial term is the
/// partial derivative of the term by `x`, at the values that the leaves
/// hold.
pub proof fn lemma_tangent_is_partial(t: Term, x: int, at: Point)
    requires
        t.polynomial(),
    ensures
        t.tangent().exact(at, set![x]) == t.partial(x, at, set![x]),
    decreases t,
{
    reveal_with_fuel(Term::exact, 4);
    match t {
        Term::Bin(_, a, b) => {
            lemma_tangent_is_partial(*a, x, at);
            lemma_tangent_is_partial(*b, x, at);
        },
        _ => {},
    }
}

/// The point `at` with every active leaf moved by `h`.
pub open spec fn moved_along(at: Point, active: Set<int>, h: int) -> Point {
    |y: int|
        if active.contains(y) {
            at(y) + h
        } else {
            at(y)
        }
}

impl Term {
    /// What the value of the term gains beyond the first order when every
    /// active leaf moves by `h`, divided by `h * h`.
    pub open spec fn bend(self, h: int, at: Point, active: Set<int>) -> int
        decreases self,
    {
        match self {
            Term::Bin(op, a, b) => {
                let va = a.exact(at, active);
                let vb = b.exact(at, active);
                let da = a.tangent().exact(at, active);
                let db = b.tangent().exact(at, active);
                let ca = a.bend(h, at, active);
                let cb = b.bend(h, at, active);
                if op == Op::Add {
                    ca + cb
                } else if op == Op::Mul {
                    va * cb + ca * vb + da * db + h * (da * cb + ca * db) + h * h * (ca * cb)
                } else {
                    0
                }
            },
            _ => 0,
        }
    }
}

/// The tangent is the derivative in the direction of the active leaves:
/// when every active leaf moves by `h`, the exact value of a polynomial
/// term moves by `h` times the exact value of its tangent, and by a
/// multiple of `h * h`. Where several leaves are active, their partial
/// derivatives add up in the tangent.
pub proof fn lemma_tangent_is_derivative(t: Term, h: int, at: Point, active: Set<int>)
    requires
        t.polynomial(),
    ensures
        t.exact(moved_along(at, active, h), active) == t.exact(at, active) + h
            * t.tangent().exact(at, active) + h * h * t.bend(h, at, active),
    decreases t,
{
    reveal_with_fuel(Term::exact, 4);
    match t {
        Term::Bin(op, a, b) => {
            lemma_tangent_is_derivative(*a, h, at, active);
            lemma_tangent_is_derivative(*b, h, at, active);
            let va = a.exact(at, active);
            let vb = b.exact(at, active);
            let da = a.tangent().exact(at, active);
            let db = b.tangent().exact(at, active);
            let ca = a.bend(h, at, active);
            let cb = b.bend(h, at, active);
            if op == Op::Add {
                lemma_sum_expands(va, da, ca, vb, db, cb, h);
            } else {
                lemma_product_expands(va, da, ca, vb, db, cb, h);
            }
        },
        _ => {},
    }
}

/// A well-formed node with a polynomial term has polynomial inputs: it is a
/// leaf, 0, 1, a seed, a sum or a product.
proof fn lemma_polynomial_node(s: Seq<NodeView>, n: int)
    requires
        well_formed(s),
        0 <= n < s.len(),
        term_of(s, n).polynomial(),
    ensures
        s[n].op == Op::Leaf || s[n].op == Op::Zero || s[n].op == Op::One
            || s[n].op == Op::Link || s[n].op == Op::Add || s[n].op == Op::Mul,
        forall|j: int|
            0 <= j < s[n].inp.len() && s[n].op != Op::Link ==> term_of(
                s,
                (#[trigger] s[n].inp[j]).0 as int,
            ).polynomial(),
{
    assert(node_ok(s, n));
}

/// What the adjoint held by the node at `i` stands for in the derivative by
/// the leaf `x`: its exact value times the partial derivative of the node
/// by `x`; nothing where the node holds no adjoint.
pub open spec fn weight(
    held: Map<int, Term>,
    s: Seq<NodeView>,
    x: int,
    at: Point,
    active: Set<int>,
    i: int,
) -> int {
    if held.contains_key(i) {
        held[i].exact(at, active) * term_of(s, i).partial(x, at, active)
    } else {
        0
    }
}

/// The weights of the adjoints held by the first `n` nodes, summed.
pub open spec fn pending(
    held: Map<int, Term>,
    s: Seq<NodeView>,
    x: int,
    at: Point,
    active: Set<int>,
    n: int,
) -> int
    decreases n,
{
    if n <= 0 {
        0
    } else {
        pending(held, s, x, at, active, n - 1) + weight(held, s, x, at, active, n - 1)
    }
}

/// The exact value of the adjoint collected for the leaf `x`, and 0 where
/// none was collected.
pub open spec fn gathered(collected: Map<int, Term>, x: int, at: Point, active: Set<int>) -> int {
    if collected.contains_key(x) {
        collected[x].exact(at, active)
    } else {
        0
    }
}

/// The node at `j` holds the same adjoint, or none, in both.
spec fn same_at(before: Map<int, Term>, after: Map<int, Term>, j: int) -> bool {
    &&& before.contains_key(j) <==> after.contains_key(j)
    &&& before.contains_key(j) ==> before[j] == after[j]
}

/// The sum changes by the weight at `i` alone where `i` alone changes.
proof fn lemma_pending_change(
    before: Map<int, Term>,
    after: Map<int, Term>,
    s: Seq<NodeView>,
    x: int,
    at: Point,
    active: Set<int>,
    n: int,
    i: int,
)
    requires
        0 <= i < n,
        forall|j: int| j != i ==> #[trigger] same_at(before, after, j),
    ensures
        pending(after, s, x, at, active, n) == pending(before, s, x, at, active, n) - weight(
            before,
            s,
            x,
            at,
            active,
            i,
        ) + weight(after, s, x, at, active, i),
    decreases n,
{
    if n - 1 > i {
        lemma_pending_change(before, after, s, x, at, active, n - 1, i);
        assert(same_at(before, after, n - 1));
    } else {
        lemma_pending_same(before, after, s, x, at, active, n - 1);
    }
}

/// The sum over nodes that hold the same is the same.
proof fn lemma_pending_same(
    before: Map<int, Term>,
    after: Map<int, Term>,
    s: Seq<NodeView>,
    x: int,
    at: Point,
    active: Set<int>,
    n: int,
)
    requires
        forall|j: int| 0 <= j < n ==> #[trigger] same_at(before, after, j),
    ensures
        pending(after, s, x, at, active, n) == pending(before, s, x, at, active, n),
    decreases n,
{
    if n > 0 {
        lemma_pending_same(before, after, s, x, at, active, n - 1);
        assert(same_at(before, after, n - 1));
    }
}

/// Handing a share to the node at `i` adds the share's exact value times
/// the partial derivative of the node.
proof fn lemma_pending_share(
    held: Map<int, Term>,
    s: Seq<NodeView>,
    x: int,
    at: Point,
    active: Set<int>,
    n: int,
    i: int,
    share: Term,
)
    requires
        0 <= i < n,
    ensures
        pending(held.insert(i, plus(held_or_zero(held, i), share)), s, x, at, active, n)
            == pending(held, s, x, at, active, n) + share.exact(at, active) * term_of(
            s,
            i,
        ).partial(x, at, active),
{
    let after = held.insert(i, plus(held_or_zero(held, i), share));
    lemma_pending_change(held, after, s, x, at, active, n, i);
    let a = held_or_zero(held, i).exact(at, active);
    let b = share.exact(at, active);
    let d = term_of(s, i).partial(x, at, active);
    assert((a + b) * d == a * d + b * d) by (nonlinear_arith);
}

/// What a pass holds and has gathered, weighed for the derivative by `x`.
spec fn balance(p: Pass, s: Seq<NodeView>, x: int, at: Point, active: Set<int>) -> int {
    pending(p.held, s, x, at, active, s.len() as int) + gathered(p.collected, x, at, active)
}

/// The pass is at a point that a pass over a polynomial expression can
/// reach: the nodes that wait stand for polynomial terms, or are leaves
/// that seeds wrap, and what was collected was visited.
spec fn underway(p: Pass, s: Seq<NodeView>) -> bool {
    &&& forall|j: int|
        0 <= j < p.queue.len() ==> (#[trigger] p.queue[j]).0 < s.len() && term_of(
            s,
            p.queue[j].0 as int,
        ).polynomial()
    &&& forall|i: int| p.collected.contains_key(i) ==> p.visited.contains(i)
}

/// A visit keeps the balance: what the visited node hands to its inputs
/// weighs as much as what it held, by the chain rule.
proof fn lemma_visit_keeps_balance(
    s: Seq<NodeView>,
    p: Pass,
    x: int,
    at: Point,
    active: Set<int>,
)
    requires
        well_formed(s),
        0 <= x < s.len(),
        s[x].op == Op::Leaf,
        underway(p, s),
        p.queue.len() > 0,
    ensures
        balance(visit(s, p), s, x, at, active) == balance(p, s, x, at, active),
        underway(visit(s, p), s),
{
    let n = p.queue[0].0 as int;
    let len = s.len() as int;
    assert(node_ok(s, n));
    lemma_polynomial_node(s, n);
    if s[n].op == Op::Link {
        assert(node_ok(s, s[n].inp[0].0 as int));
    }
    if !p.visited.contains(n) {
        reveal_with_fuel(handed_down, 3);
        let out = held_or_zero(p.held, n);
        let o = out.exact(at, active);
        let d = term_of(s, n).partial(x, at, active);
        let held1 = p.held.insert(n, out);
        lemma_pending_change(p.held, held1, s, x, at, active, len, n);
        assert(pending(held1, s, x, at, active, len) == pending(p.held, s, x, at, active, len));
        let ins = terms_of(s, s[n].inp);
        let shares = adjoints(s[n].op, ins, out);
        let held3 = handed_down(held1, s[n].inp, shares, s[n].inp.len() as int);
        let after = visit(s, p);
        assert(forall|j: int| 0 <= j < s[n].inp.len() ==> (#[trigger] s[n].inp[j]).0 < n);
        if s[n].inp.len() == 0 {
            assert(held3 == held1);
            lemma_pending_change(held1, held1.remove(n), s, x, at, active, len, n);
            assert(!p.collected.contains_key(n));
            if n == x {
                assert(d == 1);
                assert(o * 1 == o) by (nonlinear_arith);
            } else {
                assert(d == 0);
                assert(o * 0 == 0) by (nonlinear_arith);
            }
        } else if s[n].inp.len() == 1 {
            let i0 = s[n].inp[0].0 as int;
            assert(s[n].op == Op::Link);
            lemma_pending_share(held1, s, x, at, active, len, i0, shares[0]);
            assert(held3[n] == out);
            lemma_pending_change(held3, held3.remove(n), s, x, at, active, len, n);
            assert(shares[0].exact(at, active) == 0);
            assert(d == 0);
            assert(o * 0 == 0) by (nonlinear_arith);
            assert(0 * term_of(s, i0).partial(x, at, active) == 0) by (nonlinear_arith);
        } else {
            let i0 = s[n].inp[0].0 as int;
            let i1 = s[n].inp[1].0 as int;
            let held2 = handed_down(held1, s[n].inp, shares, 1);
            lemma_pending_share(held1, s, x, at, active, len, i0, shares[0]);
            lemma_pending_share(held2, s, x, at, active, len, i1, shares[1]);
            assert(held3[n] == out);
            lemma_pending_change(held3, held3.remove(n), s, x, at, active, len, n);
            let va = term_of(s, i0).exact(at, active);
            let vb = term_of(s, i1).exact(at, active);
            let da = term_of(s, i0).partial(x, at, active);
            let db = term_of(s, i1).partial(x, at, active);
            assert(ins[0] == term_of(s, i0) && ins[1] == term_of(s, i1));
            if s[n].op == Op::Add {
                assert(d == da + db);
                assert(o * da + o * db == o * (da + db)) by (nonlinear_arith);
            } else {
                assert(d == da * vb + va * db);
                assert((vb * o) * da + (va * o) * db == o * (da * vb + va * db))
                    by (nonlinear_arith);
            }
        }
    }
}

/// A pass keeps the balance from its first visit to its last.
proof fn lemma_run_keeps_balance(
    s: Seq<NodeView>,
    p: Pass,
    fuel: nat,
    x: int,
    at: Point,
    active: Set<int>,
)
    requires
        well_formed(s),
        0 <= x < s.len(),
        s[x].op == Op::Leaf,
        underway(p, s),
    ensures
        balance(run(s, p, fuel), s, x, at, active) == balance(p, s, x, at, active),
    decreases fuel,
{
    if fuel > 0 && p.queue.len() > 0 {
        lemma_visit_keeps_balance(s, p, x, at, active);
        lemma_run_keeps_balance(s, visit(s, p), (fuel - 1) as nat, x, at, active);
    }
}

/// Reverse mode accounts for the whole derivative. After a pass from a
/// node `root` that stands for a polynomial term, the exact value of the adjoint collected for a
/// leaf `x`, together with the weights of the adjoints that nodes still
/// hold, is what the adjoints weighed before the first visit: the partial
/// derivative of the root by `x`, and the weights of the adjoints held
/// from before the pass.
pub proof fn lemma_reverse_accounts(
    s: Seq<NodeView>,
    root: PtrVWrap,
    x: int,
    at: Point,
    active: Set<int>,
)
    requires
        well_formed(s),
        root.0 < s.len(),
        term_of(s, root.0 as int).polynomial(),
        0 <= x < s.len(),
        s[x].op == Op::Leaf,
    ensures
        gathered(reverse_pass(s, root).collected, x, at, active) + pending(
            reverse_pass(s, root).held,
            s,
            x,
            at,
            active,
            s.len() as int,
        ) == term_of(s, root.0 as int).partial(x, at, active) + pending(
            holds(s).remove(root.0 as int),
            s,
            x,
            at,
            active,
            s.len() as int,
        ),
{
    let first = begin(s, root);
    lemma_run_keeps_balance(s, first, enough(root), x, at, active);
    let rest = holds(s).remove(root.0 as int);
    lemma_pending_change(rest, first.held, s, x, at, active, s.len() as int, root.0 as int);
    let d = term_of(s, root.0 as int).partial(x, at, active);
    assert(1 * d == d) by (nonlinear_arith);
}

/// Nodes that hold nothing weigh nothing.
proof fn lemma_pending_nothing(
    held: Map<int, Term>,
    s: Seq<NodeView>,
    x: int,
    at: Point,
    active: Set<int>,
    n: int,
)
    requires
        forall|i: int| 0 <= i < n ==> !held.contains_key(i),
    ensures
        pending(held, s, x, at, active, n) == 0,
    decreases n,
{
    if n > 0 {
        lemma_pending_nothing(held, s, x, at, active, n - 1);
    }
}

/// Reverse mode gives the partial derivative. Where no node held an
/// adjoint before a pass from a node `root` that stands for a polynomial
/// term and none holds one after it, the exact value of the adjoint collected for a leaf `x` is
/// the partial derivative of the root by `x`, and the derivative is 0 for
/// a leaf for which nothing was collected.
pub proof fn lemma_reverse_is_partial(
    s: Seq<NodeView>,
    root: PtrVWrap,
    x: int,
    at: Point,
    active: Set<int>,
)
    requires
        well_formed(s),
        root.0 < s.len(),
        term_of(s, root.0 as int).polynomial(),
        0 <= x < s.len(),
        s[x].op == Op::Leaf,
        forall|i: int| !holds(s).contains_key(i),
        forall|i: int| !reverse_pass(s, root).held.contains_key(i),
    ensures
        gathered(reverse_pass(s, root).collected, x, at, active) == term_of(
            s,
            root.0 as int,
        ).partial(x, at, active),
{
    lemma_reverse_accounts(s, root, x, at, active);
    lemma_pending_nothing(reverse_pass(s, root).held, s, x, at, active, s.len() as int);
    lemma_pending_nothing(holds(s).remove(root.0 as int), s, x, at, active, s.len() as int);
}

/// Forward and reverse mode agree. Under the conditions of
/// [`lemma_reverse_is_partial`], the adjoint collected for a leaf `x` has
/// the exact value that the tangent of the root has with `x` alone active.
pub proof fn lemma_forward_reverse_agree(s: Seq<NodeView>, root: PtrVWrap, x: int, at: Point)
    requires
        well_formed(s),
        root.0 < s.len(),
        term_of(s, root.0 as int).polynomial(),
        0 <= x < s.len(),
        s[x].op == Op::Leaf,
        forall|i: int| !holds(s).contains_key(i),
        forall|i: int| !reverse_pass(s, root).held.contains_key(i),
    ensures
        gathered(reverse_pass(s, root).collected, x, at, set![x]) == term_of(
            s,
            root.0 as int,
        ).tangent().exact(at, set![x]),
{
    lemma_reverse_is_partial(s, root, x, at, set![x]);
    lemma_tangent_is_partial(term_of(s, root.0 as int), x, at);
}

/// Every adjoint in the map is a polynomial term.
pub open spec fn all_polynomial(m: Map<int, Term>) -> bool {
    forall|i: int| m.contains_key(i) ==> (#[trigger] m[i]).polynomial()
}

/// A visit to a polynomial node makes polynomial adjoints of polynomial ones.
proof fn lemma_visit_keeps_polynomial(s: Seq<NodeView>, p: Pass)
    requires
        well_formed(s),
        underway(p, s),
        p.queue.len() > 0,
        all_polynomial(p.held),
        all_polynomial(p.collected),
    ensures
        all_polynomial(visit(s, p).held),
        all_polynomial(visit(s, p).collected),
        underway(visit(s, p), s),
{
    let n = p.queue[0].0 as int;
    assert(node_ok(s, n));
    lemma_polynomial_node(s, n);
    if s[n].op == Op::Link {
        assert(node_ok(s, s[n].inp[0].0 as int));
    }
    if !p.visited.contains(n) {
        reveal_with_fuel(handed_down, 3);
        reveal_with_fuel(Term::polynomial, 3);
        let out = held_or_zero(p.held, n);
        assert(out.polynomial());
        let held1 = p.held.insert(n, out);
        let ins = terms_of(s, s[n].inp);
        let shares = adjoints(s[n].op, ins, out);
        if s[n].inp.len() == 2 {
            assert(ins[0] == term_of(s, s[n].inp[0].0 as int));
            assert(ins[1] == term_of(s, s[n].inp[1].0 as int));
            assert(shares[0].polynomial() && shares[1].polynomial());
            let held2 = handed_down(held1, s[n].inp, shares, 1);
            assert(all_polynomial(held2));
        } else if s[n].inp.len() == 1 {
            assert(shares[0].polynomial());
        }
    }
}

/// A pass over a polynomial expression makes polynomial adjoints of
/// polynomial ones.
proof fn lemma_run_keeps_polynomial(s: Seq<NodeView>, p: Pass, fuel: nat)
    requires
        well_formed(s),
        underway(p, s),
        all_polynomial(p.held),
        all_polynomial(p.collected),
    ensures
        all_polynomial(run(s, p, fuel).held),
        all_polynomial(run(s, p, fuel).collected),
    decreases fuel,
{
    if fuel > 0 && p.queue.len() > 0 {
        lemma_visit_keeps_polynomial(s, p);
        lemma_run_keeps_polynomial(s, visit(s, p), (fuel - 1) as nat);
    }
}

/// The adjoints that a pass over a polynomial expression collects are
/// polynomial terms, where the adjoints held before the pass are.
pub proof fn lemma_collects_polynomials(s: Seq<NodeView>, root: PtrVWrap)
    requires
        well_formed(s),
        root.0 < s.len(),
        term_of(s, root.0 as int).polynomial(),
        all_polynomial(holds(s)),
    ensures
        all_polynomial(reverse_pass(s, root).collected),
        all_polynomial(reverse_pass(s, root).held),
{
    lemma_run_keeps_polynomial(s, begin(s, root), enough(root));
}

/// Second derivatives agree. Let a pass from a polynomial expression
/// `root` in the arena `s` collect for the leaf `x` the adjoint that the
/// node `a` of the arena `s2` stands for, and let a pass from `a` follow.
/// Where no node holds an adjoint before or after either pass, the adjoint
/// that the second pass collects for `x` has the exact value of the tangent
/// of the tangent of the root, with `x` alone active.
pub proof fn lemma_second_derivatives_agree(
    s: Seq<NodeView>,
    root: PtrVWrap,
    s2: Seq<NodeView>,
    a: PtrVWrap,
    x: int,
    at: Point,
)
    requires
        well_formed(s),
        root.0 < s.len(),
        term_of(s, root.0 as int).polynomial(),
        0 <= x < s.len(),
        s[x].op == Op::Leaf,
        forall|i: int| !holds(s).contains_key(i),
        forall|i: int| !reverse_pass(s, root).held.contains_key(i),
        reverse_pass(s, root).collected.contains_key(x),
        well_formed(s2),
        a.0 < s2.len(),
        term_of(s2, a.0 as int) == reverse_pass(s, root).collected[x],
        x < s2.len(),
        s2[x].op == Op::Leaf,
        forall|i: int| !holds(s2).contains_key(i),
        forall|i: int| !reverse_pass(s2, a).held.contains_key(i),
    ensures
        gathered(reverse_pass(s2, a).collected, x, at, set![x]) == term_of(
            s,
            root.0 as int,
        ).tangent().tangent().exact(at, set![x]),
{
    let t = term_of(s, root.0 as int);
    let first = reverse_pass(s, root).collected[x];
    let only = set![x];
    lemma_collects_polynomials(s, root);
    assert(first.polynomial());
    lemma_tangent_polynomial(t);
    assert forall|p: Point| #[trigger] t.tangent().exact(p, only) == first.exact(p, only) by {
        lemma_tangent_is_partial(t, x, p);
        lemma_reverse_is_partial(s, root, x, p, only);
    }
    lemma_partial_of_equal_terms(t.tangent(), first, x, at, only, only);
    lemma_tangent_is_partial(t.tangent(), x, at);
    lemma_reverse_is_partial(s2, a, x, at, only);
}

/// A way to write integers as single-precision numbers.
pub type Encoding = spec_fn(int) -> u32;

/// The arithmetic `u` is exact on the integers up to `bound`, written by
/// `enc`: 0 and 1 are written as the numbers 0 and 1, and the sum and the
/// product of two such integers are written as the arithmetic's sum and
/// product of what they are written as, as long as they too are within the
/// bound.
pub open spec fn exact_within(u: Arithmetic, enc: Encoding, bound: int) -> bool {
    &&& enc(0) == ZERO
    &&& enc(1) == ONE
    &&& bound >= 1
    &&& forall|a: int, b: int|
        -bound <= a <= bound && -bound <= b <= bound && -bound <= a + b <= bound ==> #[trigger] u(
            FloatCall::Add(enc(a), enc(b)),
        ) == enc(a + b)
    &&& forall|a: int, b: int|
        -bound <= a <= bound && -bound <= b <= bound && -bound <= a * b <= bound ==> #[trigger] u(
            FloatCall::Mul(enc(a), enc(b)),
        ) == enc(a * b)
}

impl Term {
    /// The exact value of the term and of every part of it is within the
    /// bound.
    pub open spec fn within(self, at: Point, active: Set<int>, bound: int) -> bool
        decreases self,
    {
        &&& -bound <= self.exact(at, active) <= bound
        &&& match self {
            Term::Bin(_, a, b) => a.within(at, active, bound) && b.within(at, active, bound),
            _ => true,
        }
    }

    /// Every leaf of the term holds, in `env`, the single-precision number
    /// that its value at the point `at` is written as.
    pub open spec fn fed(self, env: Env, at: Point, enc: Encoding) -> bool
        decreases self,
    {
        match self {
            Term::Var(x) => env.values.contains_key(x) && env.values[x] == ValType::F(enc(at(x))),
            Term::Bin(_, a, b) => a.fed(env, at, enc) && b.fed(env, at, enc),
            _ => true,
        }
    }
}

/// An exact arithmetic computes the exact value. Where the arithmetic is
/// exact up to a bound that the value of a polynomial term and of its parts
/// keep, the value of the term under that arithmetic is its exact value.
pub proof fn lemma_exact_value(
    t: Term,
    env: Env,
    u: Arithmetic,
    at: Point,
    enc: Encoding,
    bound: int,
)
    requires
        t.polynomial(),
        exact_within(u, enc, bound),
        t.within(at, env.active, bound),
        t.fed(env, at, enc),
    ensures
        t.value(env, u) == Ok::<ValType, EvalError>(ValType::F(enc(t.exact(at, env.active)))),
    decreases t,
{
    match t {
        Term::Bin(op, a, b) => {
            lemma_exact_value(*a, env, u, at, enc, bound);
            lemma_exact_value(*b, env, u, at, enc, bound);
            let va = a.exact(at, env.active);
            let vb = b.exact(at, env.active);
            assert(a.within(at, env.active, bound) && b.within(at, env.active, bound));
            assert(-bound <= va <= bound && -bound <= vb <= bound);
            let args = seq![(ValType::F(enc(va)), false), (ValType::F(enc(vb)), false)];
            assert(args[0].0 == ValType::F(enc(va)) && args[1].0 == ValType::F(enc(vb)));
            if op == Op::Add {
                assert(op.call2(enc(va), enc(vb)) == FloatCall::Add(enc(va), enc(vb)));
                assert(u(FloatCall::Add(enc(va), enc(vb))) == enc(va + vb));
            } else {
                assert(op.call2(enc(va), enc(vb)) == FloatCall::Mul(enc(va), enc(vb)));
                assert(u(FloatCall::Mul(enc(va), enc(vb))) == enc(va * vb));
            }
            assert(op.value(args, None, u) == Ok::<ValType, EvalError>(
                ValType::F(enc(t.exact(at, env.active))),
            ));
        },
        _ => {},
    }
}

/// Forward mode computes the partial derivative. With the leaf `x` alone
/// active and an arithmetic that is exact up to a bound that the tangent
/// keeps, the value of the tangent of a polynomial term is the partial
/// derivative of the term by `x`, at the values that the leaves hold.
pub proof fn lemma_forward_computes_partial(
    t: Term,
    x: int,
    env: Env,
    u: Arithmetic,
    at: Point,
    enc: Encoding,
    bound: int,
)
    requires
        t.polynomial(),
        env.active == set![x],
        exact_within(u, enc, bound),
        t.tangent().within(at, env.active, bound),
        t.tangent().fed(env, at, enc),
    ensures
        t.tangent().value(env, u) == Ok::<ValType, EvalError>(
            ValType::F(enc(t.partial(x, at, set![x]))),
        ),
{
    lemma_tangent_polynomial(t);
    lemma_exact_value(t.tangent(), env, u, at, enc, bound);
    lemma_tangent_is_partial(t, x, at);
}

/// Reverse mode computes the partial derivative. Under the conditions of
/// [`lemma_reverse_is_partial`], and with an arithmetic that is exact up to
/// a bound that the adjoint collected for a leaf `x` keeps, the value of
/// that adjoint is the partial derivative of the root by `x`, at the values
/// that the leaves hold. It is the value that forward mode computes.
pub proof fn lemma_reverse_computes_partial(
    s: Seq<NodeView>,
    root: PtrVWrap,
    x: int,
    env: Env,
    u: Arithmetic,
    at: Point,
    enc: Encoding,
    bound: int,
)
    requires
        well_formed(s),
        root.0 < s.len(),
        term_of(s, root.0 as int).polynomial(),
        0 <= x < s.len(),
        s[x].op == Op::Leaf,
        forall|i: int| !holds(s).contains_key(i),
        forall|i: int| !reverse_pass(s, root).held.contains_key(i),
        reverse_pass(s, root).collected.contains_key(x),
        exact_within(u, enc, bound),
        reverse_pass(s, root).collected[x].within(at, env.active, bound),
        reverse_pass(s, root).collected[x].fed(env, at, enc),
    ensures
        reverse_pass(s, root).collected[x].value(env, u) == Ok::<ValType, EvalError>(
            ValType::F(enc(term_of(s, root.0 as int).partial(x, at, env.active))),
        ),
{
    let adjoint = reverse_pass(s, root).collected[x];
    lemma_collects_polynomials(s, root);
    lemma_exact_value(adjoint, env, u, at, enc, bound);
    lemma_reverse_is_partial(s, root, x, at, env.active);
}

/// The sum (for `Add`) or product (for `Mul`) of two results under the
/// arithmetic `u`: the first fault comes first, as in the value of a term.
pub open spec fn joined(
    op: Op,
    a: Result<ValType, EvalError>,
    b: Result<ValType, EvalError>,
    u: Arithmetic,
) -> Result<ValType, EvalError> {
    match a {
        Ok(va) => match b {
            Ok(vb) => op.value(seq![(va, false), (vb, false)], None, u),
            Err(e) => Err(e),
        },
        Err(e) => Err(e),
    }
}

impl Term {
    /// The partial derivative of the term by the leaf `x` in closed form,
    /// computed in the arithmetic `u` at the values that the leaves hold:
    /// 1 for the leaf itself, 0 for any other leaf, for 0, 1 and a seed,
    /// `a' + b'` for a sum and `a' * b + a * b'` for a product, where the
    /// sums and products are those of `u`, rounded as `u` rounds.
    pub open spec fn gradient(self, x: int, env: Env, u: Arithmetic) -> Result<ValType, EvalError>
        decreases self,
    {
        match self {
            Term::Var(y) => Ok(
                ValType::F(
                    if y == x {
                        ONE
                    } else {
                        ZERO
                    },
                ),
            ),
            Term::Bin(op, a, b) => if op == Op::Add {
                joined(Op::Add, a.gradient(x, env, u), b.gradient(x, env, u), u)
            } else if op == Op::Mul {
                joined(
                    Op::Add,
                    joined(Op::Mul, a.gradient(x, env, u), b.value(env, u), u),
                    joined(Op::Mul, a.value(env, u), b.gradient(x, env, u), u),
                    u,
                )
            } else {
                Ok(ValType::F(ZERO))
            },
            _ => Ok(ValType::F(ZERO)),
        }
    }
}

/// Forward mode gives the closed form under every arithmetic, rounded or
/// not. With the leaf `x` alone active, the value of the tangent of a
/// polynomial term is the partial derivative of the term by `x` in closed
/// form, computed in the same arithmetic at the values that the leaves
/// hold, and it fails where the closed form fails.
pub proof fn lemma_forward_is_closed_form(t: Term, x: int, env: Env, u: Arithmetic)
    requires
        t.polynomial(),
        env.active == set![x],
    ensures
        t.tangent().value(env, u) == t.gradient(x, env, u),
    decreases t,
{
    reveal_with_fuel(Term::value, 3);
    match t {
        Term::Bin(_, a, b) => {
            lemma_forward_is_closed_form(*a, x, env, u);
            lemma_forward_is_closed_form(*b, x, env, u);
        },
        _ => {},
    }
}

} // verus!
