//! Reverse mode: the adjoint of every leaf below a node, gathered breadth
//! first, and the evaluation of an adjoint.
//!
//! A pass is described twice. [`reverse_pass`] says what the adjoints stand
//! for: it follows the pass over terms. [`reverse_sweep`] says which nodes
//! the pass adds to the arena and which of them it collects. The first is
//! what the derivatives are read from, the second is what a later pass over
//! the new nodes starts from.
use std::collections::HashMap;
use std::collections::HashSet;
use std::collections::VecDeque;
use vstd::prelude::*;
use vstd::set_lib::{lemma_int_range, lemma_len_subset, set_int_range};
use crate::forward::{below, computed, reevaluated};
use crate::graph::{
    at, env_of, grown, keeps_terms, lemma_grown, lemma_term_frame, node_ok, term_of,
    well_formed, Graph, Minus, NodeView, PtrVWrap,
};
use crate::operation::{outline, Op};
use crate::term::{adjoints, plus, Env, Term};
use crate::valtype::{
    answers, blank, computes, Arithmetic, EvalError, FloatCall, ValType, MINUS_ONE, ONE, ZERO,
};

verus! {

/// The state of a reverse pass.
pub struct Pass {
    /// The nodes that wait for their visit, the next one first.
    pub queue: Seq<PtrVWrap>,
    /// The positions of the nodes visited.
    pub visited: Set<int>,
    /// The adjoint gathered so far for each node that holds one.
    pub held: Map<int, Term>,
    /// The adjoint of each leaf visited.
    pub collected: Map<int, Term>,
}

/// The adjoint that the node at `i` holds, and 0 where it holds none.
pub open spec fn held_or_zero(held: Map<int, Term>, i: int) -> Term {
    if held.contains_key(i) {
        held[i]
    } else {
        Term::Zero
    }
}

/// The terms of the nodes `ps`, in order.
pub open spec fn terms_of(s: Seq<NodeView>, ps: Seq<PtrVWrap>) -> Seq<Term> {
    Seq::new(ps.len(), |k: int| term_of(s, ps[k].0 as int))
}

/// The adjoints held after the first `k` of `inputs` have each received
/// their share: an input holds the sum of what it held and its share.
pub open spec fn handed_down(
    held: Map<int, Term>,
    inputs: Seq<PtrVWrap>,
    shares: Seq<Term>,
    k: int,
) -> Map<int, Term>
    decreases k,
{
    if k <= 0 {
        held
    } else {
        let before = handed_down(held, inputs, shares, k - 1);
        let i = inputs[k - 1].0 as int;
        before.insert(i, plus(held_or_zero(before, i), shares[k - 1]))
    }
}

/// The pass after the first node of the queue has left it. A node that was
/// visited before is passed over. Any other node hands its adjoint down to
/// its inputs by the rule of its operation, gives its own adjoint up (a leaf
/// to the collection), sends its inputs to the end of the queue, and counts
/// as visited.
pub open spec fn visit(s: Seq<NodeView>, p: Pass) -> Pass {
    let n = p.queue[0].0 as int;
    let rest = p.queue.drop_first();
    if p.visited.contains(n) {
        Pass { queue: rest, ..p }
    } else {
        let out = held_or_zero(p.held, n);
        let shares = adjoints(s[n].op, terms_of(s, s[n].inp), out);
        let held = handed_down(p.held.insert(n, out), s[n].inp, shares, s[n].inp.len() as int);
        Pass {
            queue: rest + s[n].inp,
            visited: p.visited.insert(n),
            held: held.remove(n),
            collected: if s[n].inp.len() == 0 {
                p.collected.insert(n, out)
            } else {
                p.collected
            },
        }
    }
}

/// The pass after at most `fuel` further visits.
pub open spec fn run(s: Seq<NodeView>, p: Pass, fuel: nat) -> Pass
    decreases fuel,
{
    if fuel == 0 || p.queue.len() == 0 {
        p
    } else {
        run(s, visit(s, p), (fuel - 1) as nat)
    }
}

/// The adjoint that each node of the arena holds, as a term.
pub open spec fn holds(s: Seq<NodeView>) -> Map<int, Term> {
    Map::new(
        |i: int| 0 <= i < s.len() && s[i].adjoint is Some,
        |i: int| term_of(s, (s[i].adjoint->0).0 as int),
    )
}

/// The pass before its first visit: the root holds the adjoint 1, every
/// other node what it held before, and the root alone waits.
pub open spec fn begin(s: Seq<NodeView>, root: PtrVWrap) -> Pass {
    Pass {
        queue: seq![root],
        visited: Set::empty(),
        held: holds(s).insert(root.0 as int, Term::One),
        collected: Map::empty(),
    }
}

/// A number of visits that empties the queue of a pass from `root`: each
/// node at or below the root is visited once and sends at most two nodes to
/// the queue, each of which leaves it once.
pub open spec fn enough(root: PtrVWrap) -> nat {
    (3 * (root.0 + 1) + 1) as nat
}

/// The reverse pass from `root` through the arena `s`, at its end.
pub open spec fn reverse_pass(s: Seq<NodeView>, root: PtrVWrap) -> Pass {
    run(s, begin(s, root), enough(root))
}

/// `b` is `a` after a part of a reverse pass: nodes that are no leaves may
/// have been added behind, inactive and without adjoint, and among the
/// nodes of `a` nothing but adjoints has changed, and those at the
/// positions `at` alone.
pub open spec fn passed(a: Seq<NodeView>, b: Seq<NodeView>, at: Set<int>) -> bool {
    &&& a.len() <= b.len()
    &&& forall|i: int|
        0 <= i < a.len() ==> #[trigger] b[i] == (NodeView { adjoint: b[i].adjoint, ..a[i] }) && (
        !at.contains(i) ==> b[i].adjoint == a[i].adjoint)
    &&& forall|i: int|
        a.len() <= i < b.len() ==> (#[trigger] b[i]).op != Op::Leaf && !b[i].active
            && b[i].adjoint is None
}

/// A part of a reverse pass changes neither the terms of the nodes nor the
/// values and marks of the leaves.
pub proof fn lemma_passed(a: Seq<NodeView>, b: Seq<NodeView>, at: Set<int>)
    requires
        passed(a, b, at),
    ensures
        keeps_terms(a, b),
        env_of(b) == env_of(a),
{
    assert forall|n: int| 0 <= n < a.len() implies #[trigger] term_of(b, n) == term_of(a, n) by {
        assert forall|i: int| 0 <= i <= n implies (#[trigger] b[i]).op == a[i].op && b[i].inp
            == a[i].inp && (a[i].op == Op::Const ==> b[i].val == a[i].val) by {
            assert(b[i] == (NodeView { adjoint: b[i].adjoint, ..a[i] }));
        }
        lemma_term_frame(a, b, n);
    }
    assert forall|i: int| 0 <= i < a.len() implies (#[trigger] b[i]).op == a[i].op && b[i].val
        == a[i].val && b[i].active == a[i].active by {
        assert(b[i] == (NodeView { adjoint: b[i].adjoint, ..a[i] }));
    }
    assert(env_of(b).values =~= env_of(a).values);
    assert(env_of(b).active =~= env_of(a).active);
}

/// Nodes added behind an arena leave the adjoints that it holds as they are.
pub proof fn lemma_holds_grown(a: Seq<NodeView>, b: Seq<NodeView>)
    requires
        grown(a, b),
        well_formed(a),
    ensures
        holds(b) == holds(a),
{
    lemma_grown(a, b);
    assert forall|i: int| 0 <= i < a.len() && a[i].adjoint is Some implies term_of(
        b,
        (a[i].adjoint->0).0 as int,
    ) == term_of(a, (a[i].adjoint->0).0 as int) by {
        assert(node_ok(a, i));
    }
    assert forall|i: int| holds(b).contains_key(i) <==> holds(a).contains_key(i) by {
        if 0 <= i < b.len() {
            assert(b[i].adjoint is None || i < a.len());
        }
    }
    assert(holds(b) =~= holds(a));
}

/// What an arena holds after the adjoint of one node has been replaced.
pub proof fn lemma_holds_set(a: Seq<NodeView>, p: int, v: Option<PtrVWrap>)
    requires
        well_formed(a),
        0 <= p < a.len(),
        v matches Some(q) ==> q.0 < a.len(),
    ensures
        holds(a.update(p, NodeView { adjoint: v, ..a[p] })) == (match v {
            Some(q) => holds(a).insert(p, term_of(a, q.0 as int)),
            None => holds(a).remove(p),
        }),
        keeps_terms(a, a.update(p, NodeView { adjoint: v, ..a[p] })),
        env_of(a.update(p, NodeView { adjoint: v, ..a[p] })) == env_of(a),
{
    let b = a.update(p, NodeView { adjoint: v, ..a[p] });
    assert(passed(a, b, set![p]));
    lemma_passed(a, b, set![p]);
    assert forall|i: int| 0 <= i < a.len() && b[i].adjoint is Some implies term_of(
        b,
        (b[i].adjoint->0).0 as int,
    ) == term_of(a, (b[i].adjoint->0).0 as int) by {
        assert(node_ok(a, i));
    }
    match v {
        Some(q) => {
            assert(holds(b) =~= holds(a).insert(p, term_of(a, q.0 as int)));
        },
        None => {
            assert(holds(b) =~= holds(a).remove(p));
        },
    }
}

/// The positions up to and with `n`.
pub open spec fn upto(n: int) -> Set<int> {
    Set::new(|i: int| 0 <= i <= n)
}

/// Two parts of a reverse pass, one after the other, are a part of it.
pub proof fn lemma_passed_twice(
    a: Seq<NodeView>,
    b: Seq<NodeView>,
    c: Seq<NodeView>,
    first: Set<int>,
    second: Set<int>,
    at: Set<int>,
)
    requires
        passed(a, b, first),
        passed(b, c, second),
        forall|i: int| first.contains(i) || second.contains(i) ==> at.contains(i) && i < a.len(),
    ensures
        passed(a, c, at),
{
    assert forall|i: int| 0 <= i < a.len() implies #[trigger] c[i] == (NodeView {
        adjoint: c[i].adjoint,
        ..a[i]
    }) && (!at.contains(i) ==> c[i].adjoint == a[i].adjoint) by {
        assert(b[i] == (NodeView { adjoint: b[i].adjoint, ..a[i] }));
        assert(c[i] == (NodeView { adjoint: c[i].adjoint, ..b[i] }));
    }
    assert forall|i: int| a.len() <= i < c.len() implies (#[trigger] c[i]).op != Op::Leaf
        && !c[i].active && c[i].adjoint is None by {
        if i < b.len() {
            assert(b[i].op != Op::Leaf);
            assert(c[i] == (NodeView { adjoint: c[i].adjoint, ..b[i] }));
            assert(!second.contains(i));
        }
    }
}

/// The nodes that a node with the operation `op` and the inputs `a` and
/// `b` adds for the shares of its inputs when its adjoint is `out`, where
/// they are added from the position `base` on. The operations with one
/// input use `a` alone.
pub open spec fn share_nodes(op: Op, a: PtrVWrap, b: PtrVWrap, out: PtrVWrap, base: int) -> Seq<
    NodeView,
> {
    match op {
        Op::Leaf | Op::Const | Op::Zero | Op::One | Op::Add => Seq::empty(),
        Op::Link => seq![NodeView::plain(Op::Zero, Seq::empty(), Some(ValType::F(ZERO)))],
        Op::Mul => seq![NodeView::over(Op::Mul, b, out), NodeView::over(Op::Mul, a, out)],
        Op::Div => seq![
            NodeView::number(ONE),
            NodeView::number(MINUS_ONE),
            NodeView::over(Op::Div, at(base, 0), b),
            NodeView::over(Op::Mul, at(base, 2), out),
            NodeView::over(Op::Mul, at(base, 1), a),
            NodeView::over(Op::Mul, b, b),
            NodeView::over(Op::Div, at(base, 4), at(base, 5)),
            NodeView::over(Op::Mul, at(base, 6), out),
        ],
        Op::Pow => seq![
            NodeView::number(ONE),
            NodeView::number(MINUS_ONE),
            NodeView::over(Op::Mul, at(base, 0), at(base, 1)),
            NodeView::over(Op::Add, b, at(base, 2)),
            NodeView::over(Op::Pow, a, at(base, 3)),
            NodeView::over(Op::Mul, at(base, 4), b),
            NodeView::over(Op::Mul, at(base, 5), out),
            NodeView::over(Op::Pow, a, b),
            NodeView::of(Op::Ln, a),
            NodeView::over(Op::Mul, at(base, 7), at(base, 8)),
            NodeView::over(Op::Mul, at(base, 9), out),
        ],
        Op::Sin => seq![NodeView::of(Op::Cos, a), NodeView::over(Op::Mul, at(base, 0), out)],
        Op::Cos => seq![
            NodeView::number(MINUS_ONE),
            NodeView::of(Op::Sin, a),
            NodeView::over(Op::Mul, at(base, 0), at(base, 1)),
            NodeView::over(Op::Mul, at(base, 2), out),
        ],
        Op::Tan => seq![
            NodeView::number(ONE),
            NodeView::of(Op::Cos, a),
            NodeView::of(Op::Cos, a),
            NodeView::over(Op::Mul, at(base, 1), at(base, 2)),
            NodeView::over(Op::Div, at(base, 0), at(base, 3)),
            NodeView::over(Op::Mul, at(base, 4), out),
        ],
        Op::Exp => seq![NodeView::of(Op::Exp, a), NodeView::over(Op::Mul, at(base, 0), out)],
        Op::Ln => seq![
            NodeView::number(ONE),
            NodeView::over(Op::Div, at(base, 0), a),
            NodeView::over(Op::Mul, at(base, 1), out),
        ],
    }
}

/// The nodes that stand for the shares, one for each input in order, among
/// the nodes of [`share_nodes`]. A sum hands its own adjoint to both inputs.
pub open spec fn share_handles(op: Op, out: PtrVWrap, base: int) -> Seq<PtrVWrap> {
    match op {
        Op::Leaf | Op::Const | Op::Zero | Op::One => Seq::empty(),
        Op::Link => seq![at(base, 0)],
        Op::Add => seq![out, out],
        Op::Mul => seq![at(base, 0), at(base, 1)],
        Op::Div => seq![at(base, 3), at(base, 7)],
        Op::Pow => seq![at(base, 6), at(base, 10)],
        Op::Sin | Op::Exp => seq![at(base, 1)],
        Op::Cos => seq![at(base, 3)],
        Op::Tan => seq![at(base, 5)],
        Op::Ln => seq![at(base, 2)],
    }
}

/// The arena after the node at `p` has been given a new node that stands
/// for 0 as its adjoint, where it held none.
pub open spec fn with_accumulator(s: Seq<NodeView>, p: int) -> Seq<NodeView> {
    if s[p].adjoint is Some {
        s
    } else {
        s.push(NodeView::plain(Op::Zero, Seq::empty(), None)).update(
            p,
            NodeView { adjoint: Some(at(s.len() as int, 0)), ..s[p] },
        )
    }
}

/// The arena after the first `k` of `inputs` have each received their share:
/// an input is given, as its adjoint, a new sum of the adjoint it held and
/// its share.
pub open spec fn handed_arena(
    s: Seq<NodeView>,
    inputs: Seq<PtrVWrap>,
    shares: Seq<PtrVWrap>,
    k: int,
) -> Seq<NodeView>
    decreases k,
{
    if k <= 0 {
        s
    } else {
        let before = handed_arena(s, inputs, shares, k - 1);
        let i = inputs[k - 1].0 as int;
        let ready = with_accumulator(before, i);
        let sum = NodeView::over(Op::Add, ready[i].adjoint->0, shares[k - 1]);
        ready.push(sum).update(
            i,
            NodeView { adjoint: Some(at(ready.len() as int, 0)), ..ready[i] },
        )
    }
}

/// The arena after a visit to the node at `n`.
pub open spec fn settled_arena(s: Seq<NodeView>, n: int) -> Seq<NodeView> {
    let ready = with_accumulator(s, n);
    let out = ready[n].adjoint->0;
    let base = ready.len() as int;
    let shared = ready + share_nodes(s[n].op, s[n].inp[0], s[n].inp[1], out, base);
    let handed = handed_arena(
        shared,
        s[n].inp,
        share_handles(s[n].op, out, base),
        s[n].inp.len() as int,
    );
    handed.update(n, NodeView { adjoint: None, ..handed[n] })
}

/// The state of a reverse pass with the arena it works on: where
/// [`Pass`] says what the adjoints stand for, this says which nodes they
/// are.
pub struct Sweep {
    pub nodes: Seq<NodeView>,
    /// The nodes that wait for their visit, the next one first.
    pub queue: Seq<PtrVWrap>,
    /// The positions of the nodes visited.
    pub visited: Set<int>,
    /// The node of the adjoint of each leaf visited.
    pub collected: Map<int, PtrVWrap>,
}

/// The sweep after the first node of the queue has left it.
pub open spec fn sweep_visit(w: Sweep) -> Sweep {
    let n = w.queue[0].0 as int;
    let rest = w.queue.drop_first();
    if w.visited.contains(n) {
        Sweep { queue: rest, ..w }
    } else {
        Sweep {
            nodes: settled_arena(w.nodes, n),
            queue: rest + w.nodes[n].inp,
            visited: w.visited.insert(n),
            collected: if w.nodes[n].inp.len() == 0 {
                w.collected.insert(n, with_accumulator(w.nodes, n)[n].adjoint->0)
            } else {
                w.collected
            },
        }
    }
}

/// The sweep after at most `fuel` further visits.
pub open spec fn sweep_run(w: Sweep, fuel: nat) -> Sweep
    decreases fuel,
{
    if fuel == 0 || w.queue.len() == 0 {
        w
    } else {
        sweep_run(sweep_visit(w), (fuel - 1) as nat)
    }
}

/// The sweep before its first visit: the root has been given a new node
/// that stands for 1 as its adjoint, and waits alone.
pub open spec fn sweep_begin(s: Seq<NodeView>, root: PtrVWrap) -> Sweep {
    Sweep {
        nodes: s.push(NodeView::plain(Op::One, Seq::empty(), None)).update(
            root.0 as int,
            NodeView { adjoint: Some(at(s.len() as int, 0)), ..s[root.0 as int] },
        ),
        queue: seq![root],
        visited: Set::empty(),
        collected: Map::empty(),
    }
}

/// The reverse pass from `root` through the arena `s`, at its end, with
/// the arena it leaves.
pub open spec fn reverse_sweep(s: Seq<NodeView>, root: PtrVWrap) -> Sweep {
    sweep_run(sweep_begin(s, root), enough(root))
}

/// Builds `b * out` and `a * out`, the shares of the factors of a product.
fn shares_of_product(g: &mut Graph, a: PtrVWrap, b: PtrVWrap, out_adj: PtrVWrap) -> (shares: Vec<
    PtrVWrap,
>)
    requires
        old(g).wf(),
        old(g).has(a),
        old(g).has(b),
        old(g).has(out_adj),
    ensures
        final(g)@ == old(g)@ + share_nodes(Op::Mul, a, b, out_adj, old(g)@.len() as int),
        shares@ == share_handles(Op::Mul, out_adj, old(g)@.len() as int),
        final(g).wf(),
        grown(old(g)@, final(g)@),
        forall|k: int| 0 <= k < shares@.len() ==> final(g).has(#[trigger] shares@[k]),
        terms_of(final(g)@, shares@) == adjoints(
            Op::Mul,
            seq![old(g).term(a), old(g).term(b)],
            old(g).term(out_adj),
        ),
{
    let first = g.binary(Op::Mul, b, out_adj);
    let second = g.binary(Op::Mul, a, out_adj);
    let shares = vec![first, second];
    assert(terms_of(g@, shares@) =~= adjoints(
        Op::Mul,
        seq![old(g).term(a), old(g).term(b)],
        old(g).term(out_adj),
    ));
    assert(g@ =~= old(g)@ + share_nodes(Op::Mul, a, b, out_adj, old(g)@.len() as int));
    assert(shares@ =~= share_handles(Op::Mul, out_adj, old(g)@.len() as int));
    shares
}

/// Builds `(1 / b) * out` and `((-1 * a) / (b * b)) * out`, the shares of
/// the operands of a quotient.
fn shares_of_quotient(g: &mut Graph, a: PtrVWrap, b: PtrVWrap, out_adj: PtrVWrap) -> (shares: Vec<
    PtrVWrap,
>)
    requires
        old(g).wf(),
        old(g).has(a),
        old(g).has(b),
        old(g).has(out_adj),
    ensures
        final(g)@ == old(g)@ + share_nodes(Op::Div, a, b, out_adj, old(g)@.len() as int),
        shares@ == share_handles(Op::Div, out_adj, old(g)@.len() as int),
        final(g).wf(),
        grown(old(g)@, final(g)@),
        forall|k: int| 0 <= k < shares@.len() ==> final(g).has(#[trigger] shares@[k]),
        terms_of(final(g)@, shares@) == adjoints(
            Op::Div,
            seq![old(g).term(a), old(g).term(b)],
            old(g).term(out_adj),
        ),
{
    let one = g.constant(ValType::F(ONE));
    let minus_one = g.constant(ValType::F(MINUS_ONE));
    let d1 = g.binary(Op::Div, one, b);
    let first = g.binary(Op::Mul, d1, out_adj);
    let m = g.binary(Op::Mul, minus_one, a);
    let bb = g.binary(Op::Mul, b, b);
    let d2 = g.binary(Op::Div, m, bb);
    let second = g.binary(Op::Mul, d2, out_adj);
    let shares = vec![first, second];
    assert(terms_of(g@, shares@) =~= adjoints(
        Op::Div,
        seq![old(g).term(a), old(g).term(b)],
        old(g).term(out_adj),
    ));
    assert(g@ =~= old(g)@ + share_nodes(Op::Div, a, b, out_adj, old(g)@.len() as int));
    assert(shares@ =~= share_handles(Op::Div, out_adj, old(g)@.len() as int));
    shares
}

/// Builds `((a ^ (b - 1)) * b) * out` and `((a ^ b) * ln(a)) * out`, the
/// shares of the base and the exponent of a power.
fn shares_of_power(g: &mut Graph, a: PtrVWrap, b: PtrVWrap, out_adj: PtrVWrap) -> (shares: Vec<
    PtrVWrap,
>)
    requires
        old(g).wf(),
        old(g).has(a),
        old(g).has(b),
        old(g).has(out_adj),
    ensures
        final(g)@ == old(g)@ + share_nodes(Op::Pow, a, b, out_adj, old(g)@.len() as int),
        shares@ == share_handles(Op::Pow, out_adj, old(g)@.len() as int),
        final(g).wf(),
        grown(old(g)@, final(g)@),
        forall|k: int| 0 <= k < shares@.len() ==> final(g).has(#[trigger] shares@[k]),
        terms_of(final(g)@, shares@) == adjoints(
            Op::Pow,
            seq![old(g).term(a), old(g).term(b)],
            old(g).term(out_adj),
        ),
{
    let one = g.constant(ValType::F(ONE));
    let less = Minus(g, b, one);
    let lower = g.binary(Op::Pow, a, less);
    let m1 = g.binary(Op::Mul, lower, b);
    let first = g.binary(Op::Mul, m1, out_adj);
    let full = g.binary(Op::Pow, a, b);
    let l = g.unary(Op::Ln, a);
    let m2 = g.binary(Op::Mul, full, l);
    let second = g.binary(Op::Mul, m2, out_adj);
    let shares = vec![first, second];
    assert(terms_of(g@, shares@) =~= adjoints(
        Op::Pow,
        seq![old(g).term(a), old(g).term(b)],
        old(g).term(out_adj),
    ));
    assert(g@ =~= old(g)@ + share_nodes(Op::Pow, a, b, out_adj, old(g)@.len() as int));
    assert(shares@ =~= share_handles(Op::Pow, out_adj, old(g)@.len() as int));
    shares
}

/// Builds the share of the input of a function of one operand: the
/// derivative of the function at `a`, times `out`.
fn share_of_operand(g: &mut Graph, op: Op, a: PtrVWrap, out_adj: PtrVWrap) -> (shares: Vec<
    PtrVWrap,
>)
    requires
        old(g).wf(),
        old(g).has(a),
        old(g).has(out_adj),
        op == Op::Sin || op == Op::Cos || op == Op::Tan || op == Op::Exp || op == Op::Ln,
    ensures
        final(g)@ == old(g)@ + share_nodes(op, a, a, out_adj, old(g)@.len() as int),
        shares@ == share_handles(op, out_adj, old(g)@.len() as int),
        final(g).wf(),
        grown(old(g)@, final(g)@),
        forall|k: int| 0 <= k < shares@.len() ==> final(g).has(#[trigger] shares@[k]),
        terms_of(final(g)@, shares@) == adjoints(op, seq![old(g).term(a)], old(g).term(out_adj)),
{
    let slope = match op {
        Op::Sin => g.unary(Op::Cos, a),
        Op::Cos => {
            let minus_one = g.constant(ValType::F(MINUS_ONE));
            let sn = g.unary(Op::Sin, a);
            g.binary(Op::Mul, minus_one, sn)
        },
        Op::Tan => {
            let one = g.constant(ValType::F(ONE));
            let c1 = g.unary(Op::Cos, a);
            let c2 = g.unary(Op::Cos, a);
            let m = g.binary(Op::Mul, c1, c2);
            g.binary(Op::Div, one, m)
        },
        Op::Exp => g.unary(Op::Exp, a),
        _ => {
            let one = g.constant(ValType::F(ONE));
            g.binary(Op::Div, one, a)
        },
    };
    let first = g.binary(Op::Mul, slope, out_adj);
    let shares = vec![first];
    assert(terms_of(g@, shares@) =~= adjoints(op, seq![old(g).term(a)], old(g).term(out_adj)));
    assert(g@ =~= old(g)@ + share_nodes(op, a, a, out_adj, old(g)@.len() as int));
    assert(shares@ =~= share_handles(op, out_adj, old(g)@.len() as int));
    shares
}

/// Builds the shares that the node `n` hands to its inputs when its own
/// adjoint is `out_adj`: one expression for each input, by the rule of the
/// operation of `n`.
pub fn adjoint_rule(g: &mut Graph, n: PtrVWrap, out_adj: PtrVWrap) -> (shares: Vec<PtrVWrap>)
    requires
        old(g).wf(),
        old(g).has(n),
        old(g).has(out_adj),
    ensures
        final(g).wf(),
        final(g)@ == old(g)@ + share_nodes(
            old(g)@[n.0 as int].op,
            old(g)@[n.0 as int].inp[0],
            old(g)@[n.0 as int].inp[1],
            out_adj,
            old(g)@.len() as int,
        ),
        shares@ == share_handles(old(g)@[n.0 as int].op, out_adj, old(g)@.len() as int),
        grown(old(g)@, final(g)@),
        shares@.len() == old(g)@[n.0 as int].inp.len(),
        forall|k: int| 0 <= k < shares@.len() ==> final(g).has(#[trigger] shares@[k]),
        terms_of(final(g)@, shares@) == adjoints(
            old(g)@[n.0 as int].op,
            terms_of(old(g)@, old(g)@[n.0 as int].inp),
            old(g).term(out_adj),
        ),
{
    let op = g.operation(n);
    assert(node_ok(g@, n.0 as int));
    let ghost ins = terms_of(g@, g@[n.0 as int].inp);
    let ghost start = g@;
    let shares = match op {
        Op::Leaf | Op::Const | Op::Zero | Op::One => {
            let shares: Vec<PtrVWrap> = Vec::new();
            assert(terms_of(g@, shares@) =~= adjoints(op, ins, term_of(start, out_adj.0 as int)));
            shares
        },
        Op::Link => {
            let z = g.zero(Some(ValType::F(ZERO)));
            let shares = vec![z];
            assert(terms_of(g@, shares@) =~= adjoints(op, ins, term_of(start, out_adj.0 as int)));
            shares
        },
        Op::Add => {
            let shares = vec![out_adj, out_adj];
            assert(terms_of(g@, shares@) =~= adjoints(op, ins, term_of(start, out_adj.0 as int)));
            shares
        },
        Op::Mul | Op::Div | Op::Pow => {
            let a = g.input(n, 0);
            let b = g.input(n, 1);
            assert(ins =~= seq![term_of(start, a.0 as int), term_of(start, b.0 as int)]);
            match op {
                Op::Mul => shares_of_product(g, a, b, out_adj),
                Op::Div => shares_of_quotient(g, a, b, out_adj),
                _ => shares_of_power(g, a, b, out_adj),
            }
        },
        Op::Sin | Op::Cos | Op::Tan | Op::Exp | Op::Ln => {
            let a = g.input(n, 0);
            assert(ins =~= seq![term_of(start, a.0 as int)]);
            share_of_operand(g, op, a, out_adj)
        },
    };
    assert(terms_of(g@, shares@).len() == shares@.len());
    assert(adjoints(op, ins, term_of(start, out_adj.0 as int)).len() == op.arity());
    assert(g@ =~= start + share_nodes(
        op,
        start[n.0 as int].inp[0],
        start[n.0 as int].inp[1],
        out_adj,
        start.len() as int,
    ));
    assert(shares@ =~= share_handles(op, out_adj, start.len() as int));
    shares
}

/// The adjoint that the node `p` holds; where it holds none, it is given a
/// new node that stands for 0.
fn accumulator(g: &mut Graph, p: PtrVWrap) -> (a: PtrVWrap)
    requires
        old(g).wf(),
        old(g).has(p),
    ensures
        final(g).wf(),
        final(g)@ == with_accumulator(old(g)@, p.0 as int),
        final(g).has(a),
        passed(old(g)@, final(g)@, set![p.0 as int]),
        final(g)@[p.0 as int].adjoint == Some(a),
        final(g).term(a) == held_or_zero(holds(old(g)@), p.0 as int),
        holds(final(g)@) == holds(old(g)@).insert(
            p.0 as int,
            held_or_zero(holds(old(g)@), p.0 as int),
        ),
{
    match g.adjoint_of(p) {
        Some(a) => {
            assert(node_ok(g@, p.0 as int));
            assert(holds(g@) =~= holds(g@).insert(p.0 as int, held_or_zero(holds(g@), p.0 as int)));
            a
        },
        None => {
            let z = g.zero(None);
            let ghost middle = g@;
            g.set_adjoint(p, Some(z));
            proof {
                lemma_holds_grown(old(g)@, middle);
                lemma_holds_set(middle, p.0 as int, Some(z));
            }
            z
        },
    }
}

/// Hands the shares down: each input of `n` in order is given, in place of
/// the adjoint it holds, a new node for the sum of that adjoint and its
/// share.
fn hand_down(g: &mut Graph, n: PtrVWrap, shares: &Vec<PtrVWrap>)
    requires
        old(g).wf(),
        old(g).has(n),
        shares@.len() == old(g)@[n.0 as int].inp.len(),
        forall|k: int| 0 <= k < shares@.len() ==> old(g).has(#[trigger] shares@[k]),
    ensures
        final(g).wf(),
        final(g)@ == handed_arena(
            old(g)@,
            old(g)@[n.0 as int].inp,
            shares@,
            shares@.len() as int,
        ),
        passed(old(g)@, final(g)@, upto(n.0 as int - 1)),
        holds(final(g)@) == handed_down(
            holds(old(g)@),
            old(g)@[n.0 as int].inp,
            terms_of(old(g)@, shares@),
            shares@.len() as int,
        ),
{
    let ghost start = g@;
    let ghost inputs = g@[n.0 as int].inp;
    let ghost share_terms = terms_of(g@, shares@);
    let ghost touched = upto(n.0 as int - 1);
    let l = shares.len();
    let mut idx: usize = 0;
    assert(node_ok(g@, n.0 as int));
    while idx < l
        invariant
            idx <= l,
            l == shares@.len(),
            l == inputs.len(),
            n.0 < start.len(),
            inputs == start[n.0 as int].inp,
            forall|k: int| 0 <= k < inputs.len() ==> (#[trigger] inputs[k]).0 < n.0,
            forall|k: int| 0 <= k < shares@.len() ==> (#[trigger] shares@[k]).0 < start.len(),
            share_terms == terms_of(start, shares@),
            touched == upto(n.0 as int - 1),
            well_formed(start),
            g.wf(),
            passed(start, g@, touched),
            holds(g@) == handed_down(holds(start), inputs, share_terms, idx as int),
            g@ == handed_arena(start, inputs, shares@, idx as int),
        decreases l - idx,
    {
        let ghost before = g@;
        proof {
            lemma_passed(start, before, touched);
            assert(before[n.0 as int] == (NodeView {
                adjoint: before[n.0 as int].adjoint,
                ..start[n.0 as int]
            }));
        }
        let i = g.input(n, idx);
        assert(i == inputs[idx as int]);
        let temp = accumulator(g, i);
        let ghost after_temp = g@;
        let share = shares[idx];
        assert(share == shares@[idx as int]);
        let sum = g.binary(Op::Add, temp, share);
        let ghost after_sum = g@;
        g.set_adjoint(i, Some(sum));
        proof {
            let single = set![i.0 as int];
            lemma_passed(before, after_temp, single);
            lemma_holds_grown(after_temp, after_sum);
            lemma_holds_set(after_sum, i.0 as int, Some(sum));
            assert(passed(after_temp, after_sum, Set::<int>::empty()));
            lemma_passed_twice(before, after_temp, after_sum, single, Set::<int>::empty(), single);
            assert(passed(after_sum, g@, single));
            lemma_passed_twice(before, after_sum, g@, single, single, single);
            lemma_passed_twice(start, before, g@, touched, single, touched);
            assert(term_of(after_temp, share.0 as int) == share_terms[idx as int]);
            assert(holds(g@) =~= holds(before).insert(
                i.0 as int,
                plus(held_or_zero(holds(before), i.0 as int), share_terms[idx as int]),
            ));
        }
        idx = idx + 1;
    }
    proof {
        assert(passed(start, g@, touched));
    }
}

/// Visits the node `n`: its adjoint, 0 where it holds none, is handed down
/// to its inputs by the rule of its operation and then taken from it. The
/// adjoint is returned.
fn settle(g: &mut Graph, n: PtrVWrap) -> (out: PtrVWrap)
    requires
        old(g).wf(),
        old(g).has(n),
    ensures
        final(g).wf(),
        final(g)@ == settled_arena(old(g)@, n.0 as int),
        Some(out) == with_accumulator(old(g)@, n.0 as int)[n.0 as int].adjoint,
        final(g).has(out),
        passed(old(g)@, final(g)@, upto(n.0 as int)),
        final(g).term(out) == held_or_zero(holds(old(g)@), n.0 as int),
        holds(final(g)@) == handed_down(
            holds(old(g)@).insert(n.0 as int, held_or_zero(holds(old(g)@), n.0 as int)),
            old(g)@[n.0 as int].inp,
            adjoints(
                old(g)@[n.0 as int].op,
                terms_of(old(g)@, old(g)@[n.0 as int].inp),
                held_or_zero(holds(old(g)@), n.0 as int),
            ),
            old(g)@[n.0 as int].inp.len() as int,
        ).remove(n.0 as int),
{
    let ghost s0 = g@;
    let ghost single = set![n.0 as int];
    let ghost touched = upto(n.0 as int);
    assert(node_ok(s0, n.0 as int));
    let out = accumulator(g, n);
    let ghost s1 = g@;
    let shares = adjoint_rule(g, n, out);
    let ghost s2 = g@;
    proof {
        lemma_passed(s0, s1, single);
        assert(s1[n.0 as int] == (NodeView { adjoint: s1[n.0 as int].adjoint, ..s0[n.0 as int] }));
        assert(terms_of(s1, s1[n.0 as int].inp) =~= terms_of(s0, s0[n.0 as int].inp));
        lemma_holds_grown(s1, s2);
        assert(passed(s1, s2, Set::<int>::empty()));
        lemma_passed_twice(s0, s1, s2, single, Set::<int>::empty(), touched);
    }
    hand_down(g, n, &shares);
    let ghost s3 = g@;
    g.set_adjoint(n, None);
    proof {
        lemma_passed_twice(s0, s2, s3, touched, upto(n.0 as int - 1), touched);
        lemma_holds_set(s3, n.0 as int, None);
        assert(passed(s3, g@, single));
        lemma_passed_twice(s0, s3, g@, touched, single, touched);
        lemma_passed_twice(s1, s2, s3, Set::<int>::empty(), upto(n.0 as int - 1), touched);
        lemma_passed_twice(s1, s3, g@, touched, single, touched);
        lemma_passed(s1, g@, touched);
    }
    out
}

/// The adjoints that a reverse pass collected: for each leaf that it
/// reached, the node of the leaf's adjoint.
pub struct Adjoints {
    map: HashMap<usize, PtrVWrap>,
}

impl View for Adjoints {
    type V = Map<int, PtrVWrap>;

    /// The node of the adjoint, by the position of the leaf.
    closed spec fn view(&self) -> Map<int, PtrVWrap> {
        Map::new(
            |i: int| 0 <= i <= usize::MAX && self.map@.contains_key(i as usize),
            |i: int| self.map@[i as usize],
        )
    }
}

impl Adjoints {
    /// The adjoint of `leaf`, if the pass reached it.
    pub fn get(&self, leaf: &PtrVWrap) -> (a: Option<PtrVWrap>)
        ensures
            a == (if self@.contains_key(leaf.0 as int) {
                Some(self@[leaf.0 as int])
            } else {
                None
            }),
    {
        match self.map.get(&leaf.0) {
            Some(p) => Some(*p),
            None => None,
        }
    }

    /// Whether the pass reached `leaf`.
    pub fn contains_key(&self, leaf: &PtrVWrap) -> (b: bool)
        ensures
            b == self@.contains_key(leaf.0 as int),
    {
        self.map.get(&leaf.0).is_some()
    }

    /// The adjoints as a map from the position of each leaf.
    pub fn into_map(self) -> (m: HashMap<usize, PtrVWrap>)
        ensures
            forall|k: usize| m@.contains_key(k) <==> self@.contains_key(k as int),
            forall|k: usize| m@.contains_key(k) ==> m@[k] == self@[k as int],
    {
        self.map
    }
}

impl Graph {
    /// Whether no node holds an adjoint: whether every adjoint that a pass
    /// handed down was taken up again, so that the adjoints it collected
    /// are whole.
    pub fn holds_no_adjoint(&self) -> (none: bool)
        ensures
            none == (forall|i: int| !holds(self@).contains_key(i)),
    {
        let n = self.len();
        let mut i: usize = 0;
        while i < n
            invariant
                i <= n,
                n == self@.len(),
                forall|j: int| 0 <= j < i ==> !holds(self@).contains_key(j),
            decreases n - i,
        {
            if self.adjoint_of(PtrVWrap(i)).is_some() {
                assert(holds(self@).contains_key(i as int));
                return false;
            }
            i = i + 1;
        }
        true
    }
}

impl PtrVWrap {
    /// Runs a reverse pass from this node and returns the adjoint of every
    /// leaf that the pass reached: new nodes that stand for the derivative
    /// of this node by that leaf, as far as the pass gathered it.
    ///
    /// The pass is [`reverse_pass`]: the node is given the adjoint 1 and
    /// waits alone; the waiting nodes are visited first come, first served,
    /// each one once, as [`visit`] says. An adjoint that reaches a node
    /// after its visit stays with that node, where [`PtrVWrap::adjoint`]
    /// finds it, and so does an adjoint that a node below this one held
    /// before the pass and that the pass did not reach. The nodes that the
    /// pass adds are those of [`reverse_sweep`].
    pub fn rev(&self, g: &mut Graph) -> (r: Adjoints)
        requires
            old(g).wf(),
            old(g).has(*self),
        ensures
            final(g).wf(),
            final(g)@ == reverse_sweep(old(g)@, *self).nodes,
            r@ == reverse_sweep(old(g)@, *self).collected,
            reverse_sweep(old(g)@, *self).queue.len() == 0,
            passed(old(g)@, final(g)@, upto(self.0 as int)),
            keeps_terms(old(g)@, final(g)@),
            final(g).env() == old(g).env(),
            reverse_pass(old(g)@, *self).queue.len() == 0,
            r@.dom() == reverse_pass(old(g)@, *self).collected.dom(),
            forall|i: int|
                r@.contains_key(i) ==> final(g).has(#[trigger] r@[i]) && final(g).term(r@[i])
                    == reverse_pass(old(g)@, *self).collected[i],
            holds(final(g)@) == reverse_pass(old(g)@, *self).held,
    {
        let ghost s0 = g@;
        let ghost root = self.0 as int;
        let ghost touched = upto(root);
        let mut q: VecDeque<PtrVWrap> = VecDeque::new();
        let mut collected: HashMap<usize, PtrVWrap> = HashMap::new();
        let seed = g.one();
        let ghost s1 = g@;
        g.set_adjoint(*self, Some(seed));
        q.push_back(*self);
        let mut visited: HashSet<usize> = HashSet::new();
        let ghost mut pass = begin(s0, *self);
        let ghost mut sweep = sweep_begin(s0, *self);
        let ghost mut fuel: nat = enough(*self);
        proof {
            lemma_holds_grown(s0, s1);
            lemma_holds_set(s1, root, Some(seed));
            assert(passed(s0, s1, Set::<int>::empty()));
            assert(passed(s1, g@, set![root]));
            lemma_passed_twice(s0, s1, g@, Set::<int>::empty(), set![root], touched);
            assert(q@ =~= pass.queue);
            lemma_int_range(0, root + 1);
            assert(pass.visited.len() == 0);
            assert(g@ =~= sweep.nodes);
        }
        while q.len() > 0
            invariant
                root == self.0,
                root < s0.len(),
                touched == upto(root),
                well_formed(s0),
                g.wf(),
                passed(s0, g@, touched),
                holds(g@) == pass.held,
                q@ == pass.queue,
                forall|j: int| 0 <= j < q@.len() ==> (#[trigger] q@[j]).0 <= root,
                pass.visited.finite(),
                pass.visited.subset_of(set_int_range(0, root + 1)),
                forall|k: usize| visited@.contains(k) <==> pass.visited.contains(k as int),
                forall|k: usize|
                    collected@.contains_key(k) <==> pass.collected.contains_key(k as int),
                forall|i: int| pass.collected.contains_key(i) ==> 0 <= i <= root,
                forall|k: usize|
                    collected@.contains_key(k) ==> (#[trigger] collected@[k]).0 < g@.len()
                        && term_of(g@, collected@[k].0 as int) == pass.collected[k as int],
                run(s0, pass, fuel) == reverse_pass(s0, *self),
                sweep_run(sweep, fuel) == reverse_sweep(s0, *self),
                sweep.nodes == g@,
                sweep.queue == q@,
                sweep.visited == pass.visited,
                forall|k: usize|
                    collected@.contains_key(k) <==> sweep.collected.contains_key(k as int),
                forall|k: usize|
                    collected@.contains_key(k) ==> collected@[k] == sweep.collected[k as int],
                forall|i: int| sweep.collected.contains_key(i) ==> 0 <= i <= root,
                fuel >= 3 * (root + 1 - pass.visited.len()) + q@.len(),
                pass.visited.len() <= root + 1,
            decreases fuel,
        {
            let ghost before = g@;
            let ghost earlier = pass;
            let n = q.pop_front().unwrap();
            assert(n == earlier.queue[0]);
            assert(q@ == earlier.queue.drop_first());
            let ghost swept = sweep;
            proof {
                pass = visit(s0, earlier);
                sweep = sweep_visit(swept);
                fuel = (fuel - 1) as nat;
                lemma_passed(s0, before, touched);
                assert(before[n.0 as int] == (NodeView {
                    adjoint: before[n.0 as int].adjoint,
                    ..s0[n.0 as int]
                }));
                assert(node_ok(s0, n.0 as int));
            }
            if !visited.contains(&n.0) {
                let out = settle(g, n);
                let count = g.input_count(n);
                proof {
                    lemma_passed_twice(s0, before, g@, touched, upto(n.0 as int), touched);
                    lemma_passed(before, g@, upto(n.0 as int));
                    assert(terms_of(before, before[n.0 as int].inp) =~= terms_of(
                        s0,
                        s0[n.0 as int].inp,
                    ));
                }
                if count == 0 {
                    collected.insert(n.0, out);
                }
                let mut k: usize = 0;
                while k < count
                    invariant
                        k <= count,
                        n.0 < s0.len(),
                        n.0 < g@.len(),
                        count == g@[n.0 as int].inp.len(),
                        g@[n.0 as int].inp == s0[n.0 as int].inp,
                        n.0 <= root,
                        forall|j: int|
                            0 <= j < s0[n.0 as int].inp.len() ==> (#[trigger] s0[n.0 as int].inp[j]).0
                                < n.0,
                        q@ == earlier.queue.drop_first() + s0[n.0 as int].inp.take(k as int),
                        forall|j: int| 0 <= j < q@.len() ==> (#[trigger] q@[j]).0 <= root,
                    decreases count - k,
                {
                    let i = g.input(n, k);
                    q.push_back(i);
                    assert(s0[n.0 as int].inp.take(k + 1) =~= s0[n.0 as int].inp.take(k as int).push(
                        i,
                    ));
                    k = k + 1;
                }
                visited.insert(n.0);
                proof {
                    assert(s0[n.0 as int].inp.take(count as int) =~= s0[n.0 as int].inp);
                    assert(q@ =~= pass.queue);
                    assert(q@ =~= sweep.queue);
                    assert(pass.visited =~= earlier.visited.insert(n.0 as int));
                    assert(pass.visited.subset_of(set_int_range(0, root + 1)));
                    lemma_int_range(0, root + 1);
                    lemma_len_subset(pass.visited, set_int_range(0, root + 1));
                }
            }
        }
        proof {
            assert(pass.queue.len() == 0);
            assert(pass == reverse_pass(s0, *self));
            assert(sweep == reverse_sweep(s0, *self));
            lemma_passed(s0, g@, touched);
        }
        let r = Adjoints { map: collected };
        proof {
            assert(r@ =~= sweep.collected);
            assert(r@.dom() =~= pass.collected.dom()) by {
                assert forall|i: int| r@.dom().contains(i) <==> pass.collected.dom().contains(
                    i,
                ) by {
                    if pass.collected.contains_key(i) {
                        assert(collected@.contains_key(i as usize));
                    }
                }
            }
        }
        r
    }

    /// Computes the value of the adjoint that the node holds, as
    /// [`PtrVWrap::apply_fwd`] computes the value of a node. A node that
    /// holds no adjoint is a fault, and the graph is left as it is.
    ///
    /// A pass takes the adjoint from every node it visits, so a node holds
    /// one only where a pass reached it after its visit, or did not reach
    /// it at all. The adjoints that [`PtrVWrap::rev`] returns are nodes of
    /// their own, and [`PtrVWrap::apply_fwd`] computes their values.
    pub fn apply_rev<U: Fn(FloatCall) -> u32>(&self, g: &mut Graph, unit: &U) -> (r: Result<
        ValType,
        EvalError,
    >)
        requires
            old(g).wf(),
            old(g).has(*self),
            answers(unit),
        ensures
            final(g).wf(),
            r == Err::<ValType, EvalError>(EvalError::MissingAdjoint) <==> old(g)@[self.0 as int].adjoint
                is None,
            old(g)@[self.0 as int].adjoint is None ==> final(g)@ == old(g)@,
            old(g)@[self.0 as int].adjoint matches Some(a) ==> {
                &&& reevaluated(old(g)@, final(g)@)
                &&& forall|u: Arithmetic|
                    computes(unit, u) ==> r == old(g).term(a).value(old(g).env(), u)
                &&& outline(r) == outline(old(g).term(a).value(old(g).env(), blank()))
                &&& r matches Ok(v) ==> final(g)@[a.0 as int].val == Some(v)
                &&& forall|m: int|
                    0 <= m < old(g)@.len() && !below(old(g)@, a.0 as int, m)
                        ==> #[trigger] final(g)@[m] == old(g)@[m]
                &&& r is Ok ==> forall|m: int|
                    #[trigger] below(old(g)@, a.0 as int, m) ==> computed(
                        old(g)@,
                        m,
                        final(g)@[m].val,
                        unit,
                    )
            },
    {
        match g.adjoint_of(*self) {
            None => Err(EvalError::MissingAdjoint),
            Some(a) => {
                assert(node_ok(g@, self.0 as int));
                proof {
                    lemma_value_has_no_adjoint_fault(g.term(a), g.env(), blank());
                }
                a.apply_fwd(g, unit)
            },
        }
    }
}

/// The value of a term is never the fault of a missing adjoint: that fault
/// belongs to the node that was asked, not to an expression.
pub proof fn lemma_value_has_no_adjoint_fault(t: Term, env: Env, u: Arithmetic)
    ensures
        t.value(env, u) != Err::<ValType, EvalError>(EvalError::MissingAdjoint),
    decreases t,
{
    match t {
        Term::Un(_, a) => {
            lemma_value_has_no_adjoint_fault(*a, env, u);
        },
        Term::Bin(_, a, b) => {
            lemma_value_has_no_adjoint_fault(*a, env, u);
            lemma_value_has_no_adjoint_fault(*b, env, u);
        },
        _ => {},
    }
}

} // verus!
