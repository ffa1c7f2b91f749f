//! The expression graph: an arena of nodes, the handles that name them, and
//! the constructors that build expressions from the bottom up.
//!
//! A node may be an input of many nodes. A handle is the position of a node
//! in the arena, so two handles are equal exactly when they name one node.
//! Every node stands after its inputs, so no expression contains itself.
use vstd::prelude::*;
use crate::operation::Op;
use crate::term::{minus, plus, times, Env, Term};
use crate::valtype::{ValType, MINUS_ONE};

verus! {

/// A handle to a node: its position in the arena.
#[derive(Clone, Copy, Debug, PartialEq, Eq, Hash, Structural)]
pub struct PtrVWrap(pub usize);

/// A node of the graph.
#[derive(Debug)]
pub struct VWrap {
    /// The inputs, in the order of the operands.
    pub inp: Vec<PtrVWrap>,
    /// The operation, fixed when the node is made.
    pub raw: Op,
    /// The value computed last, or for a leaf the value it holds.
    pub val: Option<ValType>,
    /// Whether the node is marked active for forward-mode seeding.
    pub eval_g: bool,
    /// The adjoint gathered for the node during a reverse pass.
    pub adj_accum: Option<PtrVWrap>,
}

/// The mathematical content of a node.
pub struct NodeView {
    pub op: Op,
    pub inp: Seq<PtrVWrap>,
    pub val: Option<ValType>,
    pub active: bool,
    pub adjoint: Option<PtrVWrap>,
}

impl View for VWrap {
    type V = NodeView;

    open spec fn view(&self) -> NodeView {
        NodeView {
            op: self.raw,
            inp: self.inp@,
            val: self.val,
            active: self.eval_g,
            adjoint: self.adj_accum,
        }
    }
}

impl NodeView {
    /// A node as the constructors make it: inactive and without adjoint.
    pub open spec fn plain(op: Op, inp: Seq<PtrVWrap>, val: Option<ValType>) -> NodeView {
        NodeView { op, inp, val, active: false, adjoint: None }
    }

    /// A new node with one input.
    pub open spec fn of(op: Op, a: PtrVWrap) -> NodeView {
        NodeView::plain(op, seq![a], None)
    }

    /// A new node with two inputs.
    pub open spec fn over(op: Op, a: PtrVWrap, b: PtrVWrap) -> NodeView {
        NodeView::plain(op, seq![a, b], None)
    }

    /// A new constant with the single-precision bit pattern `bits`.
    pub open spec fn number(bits: u32) -> NodeView {
        NodeView::plain(Op::Const, Seq::empty(), Some(ValType::F(bits)))
    }
}

/// The handle of the node `k` places behind the position `base`.
pub open spec fn at(base: int, k: int) -> PtrVWrap {
    PtrVWrap((base + k) as usize)
}

/// The node at position `i` fits the arena `s`: it has as many inputs as its
/// operation takes, each of them stands before it, a leaf or constant holds
/// a value, a link wraps a leaf, and its adjoint is a node of the arena.
pub open spec fn node_ok(s: Seq<NodeView>, i: int) -> bool {
    &&& s[i].inp.len() == s[i].op.arity()
    &&& forall|k: int| 0 <= k < s[i].inp.len() ==> (#[trigger] s[i].inp[k]).0 < i
    &&& (s[i].op == Op::Leaf || s[i].op == Op::Const) ==> s[i].val is Some
    &&& s[i].op == Op::Link ==> s[s[i].inp[0].0 as int].op == Op::Leaf
    &&& s[i].adjoint matches Some(a) ==> a.0 < s.len()
}

/// Every node fits the arena.
pub open spec fn well_formed(s: Seq<NodeView>) -> bool {
    forall|i: int| 0 <= i < s.len() ==> #[trigger] node_ok(s, i)
}

/// The term that the node at position `n` stands for.
pub open spec fn term_of(s: Seq<NodeView>, n: int) -> Term
    decreases n,
{
    if 0 <= n < s.len() {
        match s[n].op {
            Op::Leaf => Term::Var(n),
            Op::Const => Term::Lit(s[n].val->0),
            Op::Zero => Term::Zero,
            Op::One => Term::One,
            Op::Link => Term::Seed(s[n].inp[0].0 as int),
            Op::Add | Op::Mul | Op::Div | Op::Pow => {
                if s[n].inp.len() == 2 && s[n].inp[0].0 < n && s[n].inp[1].0 < n {
                    Term::Bin(
                        s[n].op,
                        Box::new(term_of(s, s[n].inp[0].0 as int)),
                        Box::new(term_of(s, s[n].inp[1].0 as int)),
                    )
                } else {
                    Term::Zero
                }
            },
            Op::Sin | Op::Cos | Op::Tan | Op::Exp | Op::Ln => {
                if s[n].inp.len() == 1 && s[n].inp[0].0 < n {
                    Term::Un(s[n].op, Box::new(term_of(s, s[n].inp[0].0 as int)))
                } else {
                    Term::Zero
                }
            },
        }
    } else {
        Term::Zero
    }
}

/// The values of the leaves of the arena and the set of its active nodes.
pub open spec fn env_of(s: Seq<NodeView>) -> Env {
    Env {
        values: Map::new(
            |i: int| 0 <= i < s.len() && s[i].op == Op::Leaf && s[i].val is Some,
            |i: int| s[i].val->0,
        ),
        active: Set::new(|i: int| 0 <= i < s.len() && s[i].active),
    }
}

/// Every node of `a` stands for the same term in `b`.
pub open spec fn keeps_terms(a: Seq<NodeView>, b: Seq<NodeView>) -> bool {
    forall|n: int| 0 <= n < a.len() ==> #[trigger] term_of(b, n) == term_of(a, n)
}

/// `b` is `a` with nodes added behind it; the added nodes are no leaves, are
/// inactive and have no adjoint.
pub open spec fn grown(a: Seq<NodeView>, b: Seq<NodeView>) -> bool {
    &&& a.len() <= b.len()
    &&& forall|i: int| 0 <= i < a.len() ==> #[trigger] b[i] == a[i]
    &&& forall|i: int|
        a.len() <= i < b.len() ==> (#[trigger] b[i]).op != Op::Leaf && !b[i].active
            && b[i].adjoint is None
}

/// `b` differs from `a` at most in values that evaluation overwrites and in
/// adjoints: operations, inputs, the values of leaves and constants and the
/// active marks are the same.
pub open spec fn same_expressions(a: Seq<NodeView>, b: Seq<NodeView>) -> bool {
    &&& a.len() == b.len()
    &&& forall|i: int|
        0 <= i < a.len() ==> (#[trigger] b[i]).op == a[i].op && b[i].inp == a[i].inp
            && b[i].active == a[i].active && ((a[i].op == Op::Leaf || a[i].op == Op::Const)
            ==> b[i].val == a[i].val)
}

/// The term of a node depends only on the operations and inputs at and below
/// it and on the values of the constants among them.
pub proof fn lemma_term_frame(a: Seq<NodeView>, b: Seq<NodeView>, n: int)
    requires
        0 <= n < a.len(),
        n < b.len(),
        forall|i: int|
            0 <= i <= n ==> (#[trigger] b[i]).op == a[i].op && b[i].inp == a[i].inp && (a[i].op
                == Op::Const ==> b[i].val == a[i].val),
    ensures
        term_of(b, n) == term_of(a, n),
    decreases n,
{
    assert(b[n].op == a[n].op && b[n].inp == a[n].inp);
    match a[n].op {
        Op::Add | Op::Mul | Op::Div | Op::Pow => {
            if a[n].inp.len() == 2 && a[n].inp[0].0 < n && a[n].inp[1].0 < n {
                lemma_term_frame(a, b, a[n].inp[0].0 as int);
                lemma_term_frame(a, b, a[n].inp[1].0 as int);
            }
        },
        Op::Sin | Op::Cos | Op::Tan | Op::Exp | Op::Ln => {
            if a[n].inp.len() == 1 && a[n].inp[0].0 < n {
                lemma_term_frame(a, b, a[n].inp[0].0 as int);
            }
        },
        _ => {},
    }
}

/// Adding nodes behind an arena changes neither the terms of its nodes nor
/// the values and marks of its leaves, and keeps it well formed where the
/// added nodes fit.
pub proof fn lemma_grown(a: Seq<NodeView>, b: Seq<NodeView>)
    requires
        grown(a, b),
        well_formed(a),
    ensures
        keeps_terms(a, b),
        env_of(b) == env_of(a),
{
    assert forall|n: int| 0 <= n < a.len() implies #[trigger] term_of(b, n) == term_of(a, n) by {
        lemma_term_frame(a, b, n);
    }
    assert(env_of(b).values =~= env_of(a).values);
    assert(env_of(b).active =~= env_of(a).active);
}

/// Overwriting computed values and adjoints changes neither the terms of the
/// nodes nor the values and marks of the leaves.
pub proof fn lemma_same_expressions(a: Seq<NodeView>, b: Seq<NodeView>)
    requires
        same_expressions(a, b),
    ensures
        keeps_terms(a, b),
        env_of(b) == env_of(a),
{
    assert forall|n: int| 0 <= n < a.len() implies #[trigger] term_of(b, n) == term_of(a, n) by {
        lemma_term_frame(a, b, n);
    }
    assert(env_of(b).values =~= env_of(a).values);
    assert(env_of(b).active =~= env_of(a).active);
}

/// An arena of nodes.
pub struct Graph {
    nodes: Vec<VWrap>,
}

impl View for Graph {
    type V = Seq<NodeView>;

    closed spec fn view(&self) -> Seq<NodeView> {
        self.nodes@.map_values(|n: VWrap| n@)
    }
}

impl Graph {
    /// Every node fits the arena.
    pub open spec fn wf(&self) -> bool {
        well_formed(self@)
    }

    /// `p` names a node of this graph.
    pub open spec fn has(&self, p: PtrVWrap) -> bool {
        p.0 < self@.len()
    }

    /// The term that `p` stands for.
    pub open spec fn term(&self, p: PtrVWrap) -> Term {
        term_of(self@, p.0 as int)
    }

    /// The values of the leaves and the set of the active nodes.
    pub open spec fn env(&self) -> Env {
        env_of(self@)
    }

    /// A graph without nodes.
    pub fn new() -> (g: Graph)
        ensures
            g@ == Seq::<NodeView>::empty(),
            g.wf(),
    {
        let g = Graph { nodes: Vec::new() };
        assert(g@ =~= Seq::<NodeView>::empty());
        g
    }

    /// The number of nodes.
    pub fn len(&self) -> (n: usize)
        ensures
            n == self@.len(),
    {
        self.nodes.len()
    }

    /// A node of the graph.
    pub fn node(&self, p: PtrVWrap) -> (n: &VWrap)
        requires
            self.has(p),
        ensures
            n@ == self@[p.0 as int],
    {
        &self.nodes[p.0]
    }

    /// The operation of a node.
    pub fn operation(&self, p: PtrVWrap) -> (op: Op)
        requires
            self.has(p),
        ensures
            op == self@[p.0 as int].op,
    {
        self.nodes[p.0].raw
    }

    /// The number of inputs of a node.
    pub fn input_count(&self, p: PtrVWrap) -> (n: usize)
        requires
            self.has(p),
        ensures
            n == self@[p.0 as int].inp.len(),
    {
        self.nodes[p.0].inp.len()
    }

    /// Input `k` of a node.
    pub fn input(&self, p: PtrVWrap, k: usize) -> (i: PtrVWrap)
        requires
            self.has(p),
            k < self@[p.0 as int].inp.len(),
        ensures
            i == self@[p.0 as int].inp[k as int],
    {
        self.nodes[p.0].inp[k]
    }

    /// The value that a node holds.
    pub fn value(&self, p: PtrVWrap) -> (v: Option<ValType>)
        requires
            self.has(p),
        ensures
            v == self@[p.0 as int].val,
    {
        self.nodes[p.0].val
    }

    /// The adjoint that a node holds.
    pub fn adjoint_of(&self, p: PtrVWrap) -> (a: Option<PtrVWrap>)
        requires
            self.has(p),
        ensures
            a == self@[p.0 as int].adjoint,
    {
        self.nodes[p.0].adj_accum
    }

    /// Whether a node is marked active.
    pub fn is_active(&self, p: PtrVWrap) -> (b: bool)
        requires
            self.has(p),
        ensures
            b == self@[p.0 as int].active,
    {
        self.nodes[p.0].eval_g
    }

    /// Adds a node behind the others.
    fn push(&mut self, node: VWrap) -> (r: PtrVWrap)
        requires
            old(self).wf(),
            node_ok(old(self)@.push(node@), old(self)@.len() as int),
        ensures
            final(self)@ == old(self)@.push(node@),
            r.0 == old(self)@.len(),
            final(self).wf(),
    {
        let r = PtrVWrap(self.nodes.len());
        let ghost before = self@;
        self.nodes.push(node);
        assert(self@ =~= before.push(node@));
        assert forall|i: int| 0 <= i < self@.len() implies #[trigger] node_ok(self@, i) by {
            if i < before.len() {
                assert(node_ok(before, i));
            }
        }
        r
    }

    /// Puts `v` in place of the value of a node.
    pub(crate) fn store(&mut self, p: PtrVWrap, v: ValType)
        requires
            old(self).wf(),
            old(self).has(p),
        ensures
            final(self)@ == old(self)@.update(
                p.0 as int,
                NodeView { val: Some(v), ..old(self)@[p.0 as int] },
            ),
            final(self).wf(),
    {
        let ghost before = self@;
        self.nodes[p.0].val = Some(v);
        assert(self@ =~= before.update(p.0 as int, NodeView { val: Some(v), ..before[p.0 as int] }));
        assert forall|i: int| 0 <= i < self@.len() implies #[trigger] node_ok(self@, i) by {
            assert(node_ok(before, i));
        }
    }

    /// Marks a node active or inactive.
    pub(crate) fn mark(&mut self, p: PtrVWrap, active: bool)
        requires
            old(self).wf(),
            old(self).has(p),
        ensures
            final(self)@ == old(self)@.update(
                p.0 as int,
                NodeView { active: active, ..old(self)@[p.0 as int] },
            ),
            final(self).wf(),
    {
        let ghost before = self@;
        self.nodes[p.0].eval_g = active;
        assert(self@ =~= before.update(p.0 as int, NodeView { active: active, ..before[p.0 as int] }));
        assert forall|i: int| 0 <= i < self@.len() implies #[trigger] node_ok(self@, i) by {
            assert(node_ok(before, i));
        }
    }

    /// Puts `a` in place of the adjoint of a node.
    pub(crate) fn set_adjoint(&mut self, p: PtrVWrap, a: Option<PtrVWrap>)
        requires
            old(self).wf(),
            old(self).has(p),
            a matches Some(q) ==> old(self).has(q),
        ensures
            final(self)@ == old(self)@.update(
                p.0 as int,
                NodeView { adjoint: a, ..old(self)@[p.0 as int] },
            ),
            final(self).wf(),
    {
        let ghost before = self@;
        self.nodes[p.0].adj_accum = a;
        assert(self@ =~= before.update(p.0 as int, NodeView { adjoint: a, ..before[p.0 as int] }));
        assert forall|i: int| 0 <= i < self@.len() implies #[trigger] node_ok(self@, i) by {
            assert(node_ok(before, i));
        }
    }
}

impl Graph {
    /// Adds a node that is no leaf behind the others.
    pub(crate) fn add_node(&mut self, op: Op, inp: Vec<PtrVWrap>, val: Option<ValType>) -> (r:
        PtrVWrap)
        requires
            old(self).wf(),
            op != Op::Leaf,
            inp.len() == op.arity(),
            forall|k: int| 0 <= k < inp.len() ==> old(self).has(#[trigger] inp[k]),
            op == Op::Const ==> val is Some,
            op == Op::Link ==> old(self)@[inp[0].0 as int].op == Op::Leaf,
        ensures
            final(self)@ == old(self)@.push(NodeView::plain(op, inp@, val)),
            r.0 == old(self)@.len(),
            final(self).wf(),
            grown(old(self)@, final(self)@),
            keeps_terms(old(self)@, final(self)@),
            final(self).env() == old(self).env(),
    {
        let node = VWrap { inp, raw: op, val, eval_g: false, adj_accum: None };
        let r = self.push(node);
        proof {
            lemma_grown(old(self)@, self@);
        }
        r
    }

    /// Adds a node with one input.
    pub(crate) fn unary(&mut self, op: Op, arg0: PtrVWrap) -> (r: PtrVWrap)
        requires
            old(self).wf(),
            old(self).has(arg0),
            op == Op::Sin || op == Op::Cos || op == Op::Tan || op == Op::Exp || op == Op::Ln,
        ensures
            final(self)@ == old(self)@.push(NodeView::plain(op, seq![arg0], None)),
            r.0 == old(self)@.len(),
            final(self).wf(),
            grown(old(self)@, final(self)@),
            keeps_terms(old(self)@, final(self)@),
            final(self).env() == old(self).env(),
            final(self).term(r) == Term::Un(op, Box::new(old(self).term(arg0))),
    {
        let inp = vec![arg0];
        assert(inp@ =~= seq![arg0]);
        let r = self.add_node(op, inp, None);
        assert(term_of(self@, arg0.0 as int) == term_of(old(self)@, arg0.0 as int));
        r
    }

    /// Adds a node with two inputs.
    pub(crate) fn binary(&mut self, op: Op, arg0: PtrVWrap, arg1: PtrVWrap) -> (r: PtrVWrap)
        requires
            old(self).wf(),
            old(self).has(arg0),
            old(self).has(arg1),
            op == Op::Add || op == Op::Mul || op == Op::Div || op == Op::Pow,
        ensures
            final(self)@ == old(self)@.push(NodeView::plain(op, seq![arg0, arg1], None)),
            r.0 == old(self)@.len(),
            final(self).wf(),
            grown(old(self)@, final(self)@),
            keeps_terms(old(self)@, final(self)@),
            final(self).env() == old(self).env(),
            final(self).term(r) == Term::Bin(
                op,
                Box::new(old(self).term(arg0)),
                Box::new(old(self).term(arg1)),
            ),
    {
        let inp = vec![arg0, arg1];
        assert(inp@ =~= seq![arg0, arg1]);
        let r = self.add_node(op, inp, None);
        assert(term_of(self@, arg0.0 as int) == term_of(old(self)@, arg0.0 as int));
        assert(term_of(self@, arg1.0 as int) == term_of(old(self)@, arg1.0 as int));
        r
    }

    /// Adds a constant.
    pub(crate) fn constant(&mut self, v: ValType) -> (r: PtrVWrap)
        requires
            old(self).wf(),
        ensures
            final(self)@ == old(self)@.push(NodeView::plain(Op::Const, Seq::empty(), Some(v))),
            r.0 == old(self)@.len(),
            final(self).wf(),
            grown(old(self)@, final(self)@),
            keeps_terms(old(self)@, final(self)@),
            final(self).env() == old(self).env(),
            final(self).term(r) == Term::Lit(v),
    {
        self.add_node(Op::Const, Vec::new(), Some(v))
    }

    /// Adds a node that stands for 0 and holds `val`.
    pub(crate) fn zero(&mut self, val: Option<ValType>) -> (r: PtrVWrap)
        requires
            old(self).wf(),
        ensures
            final(self)@ == old(self)@.push(NodeView::plain(Op::Zero, Seq::empty(), val)),
            r.0 == old(self)@.len(),
            final(self).wf(),
            grown(old(self)@, final(self)@),
            keeps_terms(old(self)@, final(self)@),
            final(self).env() == old(self).env(),
            final(self).term(r) == Term::Zero,
    {
        self.add_node(Op::Zero, Vec::new(), val)
    }

    /// Adds a node that stands for 1.
    pub(crate) fn one(&mut self) -> (r: PtrVWrap)
        requires
            old(self).wf(),
        ensures
            final(self)@ == old(self)@.push(NodeView::plain(Op::One, Seq::empty(), None)),
            r.0 == old(self)@.len(),
            final(self).wf(),
            grown(old(self)@, final(self)@),
            keeps_terms(old(self)@, final(self)@),
            final(self).env() == old(self).env(),
            final(self).term(r) == Term::One,
    {
        self.add_node(Op::One, Vec::new(), None)
    }

    /// Adds the seed of a leaf.
    pub(crate) fn link(&mut self, leaf: PtrVWrap) -> (r: PtrVWrap)
        requires
            old(self).wf(),
            old(self).has(leaf),
            old(self)@[leaf.0 as int].op == Op::Leaf,
        ensures
            final(self)@ == old(self)@.push(NodeView::plain(Op::Link, seq![leaf], None)),
            r.0 == old(self)@.len(),
            final(self).wf(),
            grown(old(self)@, final(self)@),
            keeps_terms(old(self)@, final(self)@),
            final(self).env() == old(self).env(),
            final(self).term(r) == Term::Seed(leaf.0 as int),
    {
        let inp = vec![leaf];
        assert(inp@ =~= seq![leaf]);
        self.add_node(Op::Link, inp, None)
    }
}

/// A new leaf that holds `arg0`.
pub fn Leaf(g: &mut Graph, arg0: ValType) -> (r: PtrVWrap)
    requires
        old(g).wf(),
    ensures
        final(g)@ == old(g)@.push(NodeView::plain(Op::Leaf, Seq::empty(), Some(arg0))),
        r.0 == old(g)@.len(),
        final(g).wf(),
        keeps_terms(old(g)@, final(g)@),
        final(g).term(r) == Term::Var(r.0 as int),
        final(g).env().values == old(g).env().values.insert(r.0 as int, arg0),
        final(g).env().active == old(g).env().active,
{
    let node = VWrap { inp: Vec::new(), raw: Op::Leaf, val: Some(arg0), eval_g: false, adj_accum: None };
    let r = g.push(node);
    proof {
        assert forall|n: int| 0 <= n < old(g)@.len() implies #[trigger] term_of(g@, n) == term_of(
            old(g)@,
            n,
        ) by {
            lemma_term_frame(old(g)@, g@, n);
        }
        assert(g.env().values =~= old(g).env().values.insert(r.0 as int, arg0));
        assert(g.env().active =~= old(g).env().active);
    }
    r
}

/// A new node for `arg0 * arg1`.
pub fn Mul(g: &mut Graph, arg0: PtrVWrap, arg1: PtrVWrap) -> (r: PtrVWrap)
    requires
        old(g).wf(),
        old(g).has(arg0),
        old(g).has(arg1),
    ensures
        final(g)@ == old(g)@.push(NodeView::plain(Op::Mul, seq![arg0, arg1], None)),
        r.0 == old(g)@.len(),
        final(g).wf(),
        keeps_terms(old(g)@, final(g)@),
        final(g).env() == old(g).env(),
        final(g).term(r) == times(old(g).term(arg0), old(g).term(arg1)),
{
    g.binary(Op::Mul, arg0, arg1)
}

/// A new node for `arg0 + arg1`.
pub fn Add(g: &mut Graph, arg0: PtrVWrap, arg1: PtrVWrap) -> (r: PtrVWrap)
    requires
        old(g).wf(),
        old(g).has(arg0),
        old(g).has(arg1),
    ensures
        final(g)@ == old(g)@.push(NodeView::plain(Op::Add, seq![arg0, arg1], None)),
        r.0 == old(g)@.len(),
        final(g).wf(),
        keeps_terms(old(g)@, final(g)@),
        final(g).env() == old(g).env(),
        final(g).term(r) == plus(old(g).term(arg0), old(g).term(arg1)),
{
    g.binary(Op::Add, arg0, arg1)
}

/// New nodes for `arg0 - arg1`: the constant -1, the product of `arg1` with
/// it, and the sum of `arg0` and that product, which is returned.
pub fn Minus(g: &mut Graph, arg0: PtrVWrap, arg1: PtrVWrap) -> (r: PtrVWrap)
    requires
        old(g).wf(),
        old(g).has(arg0),
        old(g).has(arg1),
    ensures
        final(g)@ == old(g)@.push(
            NodeView::plain(Op::Const, Seq::empty(), Some(ValType::F(MINUS_ONE))),
        ).push(
            NodeView::plain(Op::Mul, seq![arg1, PtrVWrap(old(g)@.len() as usize)], None),
        ).push(
            NodeView::plain(Op::Add, seq![arg0, PtrVWrap((old(g)@.len() + 1) as usize)], None),
        ),
        r.0 == old(g)@.len() + 2,
        final(g).wf(),
        grown(old(g)@, final(g)@),
        keeps_terms(old(g)@, final(g)@),
        final(g).env() == old(g).env(),
        final(g).term(r) == minus(old(g).term(arg0), old(g).term(arg1)),
{
    let temp = g.constant(ValType::F(MINUS_ONE));
    let m = g.binary(Op::Mul, arg1, temp);
    g.binary(Op::Add, arg0, m)
}

/// A new node for `sin(arg0)`.
pub fn Sin(g: &mut Graph, arg0: PtrVWrap) -> (r: PtrVWrap)
    requires
        old(g).wf(),
        old(g).has(arg0),
    ensures
        final(g)@ == old(g)@.push(NodeView::plain(Op::Sin, seq![arg0], None)),
        r.0 == old(g)@.len(),
        final(g).wf(),
        keeps_terms(old(g)@, final(g)@),
        final(g).env() == old(g).env(),
        final(g).term(r) == Term::Un(Op::Sin, Box::new(old(g).term(arg0))),
{
    g.unary(Op::Sin, arg0)
}

/// A new node for `cos(arg0)`.
pub fn Cos(g: &mut Graph, arg0: PtrVWrap) -> (r: PtrVWrap)
    requires
        old(g).wf(),
        old(g).has(arg0),
    ensures
        final(g)@ == old(g)@.push(NodeView::plain(Op::Cos, seq![arg0], None)),
        r.0 == old(g)@.len(),
        final(g).wf(),
        keeps_terms(old(g)@, final(g)@),
        final(g).env() == old(g).env(),
        final(g).term(r) == Term::Un(Op::Cos, Box::new(old(g).term(arg0))),
{
    g.unary(Op::Cos, arg0)
}

/// A new node for `tan(arg0)`.
pub fn Tan(g: &mut Graph, arg0: PtrVWrap) -> (r: PtrVWrap)
    requires
        old(g).wf(),
        old(g).has(arg0),
    ensures
        final(g)@ == old(g)@.push(NodeView::plain(Op::Tan, seq![arg0], None)),
        r.0 == old(g)@.len(),
        final(g).wf(),
        keeps_terms(old(g)@, final(g)@),
        final(g).env() == old(g).env(),
        final(g).term(r) == Term::Un(Op::Tan, Box::new(old(g).term(arg0))),
{
    g.unary(Op::Tan, arg0)
}

/// A new node for `exp(arg0)`.
pub fn Exp(g: &mut Graph, arg0: PtrVWrap) -> (r: PtrVWrap)
    requires
        old(g).wf(),
        old(g).has(arg0),
    ensures
        final(g)@ == old(g)@.push(NodeView::plain(Op::Exp, seq![arg0], None)),
        r.0 == old(g)@.len(),
        final(g).wf(),
        keeps_terms(old(g)@, final(g)@),
        final(g).env() == old(g).env(),
        final(g).term(r) == Term::Un(Op::Exp, Box::new(old(g).term(arg0))),
{
    g.unary(Op::Exp, arg0)
}

/// A new node for the natural logarithm of `arg0`.
pub fn Ln(g: &mut Graph, arg0: PtrVWrap) -> (r: PtrVWrap)
    requires
        old(g).wf(),
        old(g).has(arg0),
    ensures
        final(g)@ == old(g)@.push(NodeView::plain(Op::Ln, seq![arg0], None)),
        r.0 == old(g)@.len(),
        final(g).wf(),
        keeps_terms(old(g)@, final(g)@),
        final(g).env() == old(g).env(),
        final(g).term(r) == Term::Un(Op::Ln, Box::new(old(g).term(arg0))),
{
    g.unary(Op::Ln, arg0)
}

/// A new node for `arg0 / arg1`.
pub fn Div(g: &mut Graph, arg0: PtrVWrap, arg1: PtrVWrap) -> (r: PtrVWrap)
    requires
        old(g).wf(),
        old(g).has(arg0),
        old(g).has(arg1),
    ensures
        final(g)@ == old(g)@.push(NodeView::plain(Op::Div, seq![arg0, arg1], None)),
        r.0 == old(g)@.len(),
        final(g).wf(),
        keeps_terms(old(g)@, final(g)@),
        final(g).env() == old(g).env(),
        final(g).term(r) == Term::Bin(
            Op::Div,
            Box::new(old(g).term(arg0)),
            Box::new(old(g).term(arg1)),
        ),
{
    g.binary(Op::Div, arg0, arg1)
}

/// A new node for `arg0` raised to `arg1`.
pub fn Pow(g: &mut Graph, arg0: PtrVWrap, arg1: PtrVWrap) -> (r: PtrVWrap)
    requires
        old(g).wf(),
        old(g).has(arg0),
        old(g).has(arg1),
    ensures
        final(g)@ == old(g)@.push(NodeView::plain(Op::Pow, seq![arg0, arg1], None)),
        r.0 == old(g)@.len(),
        final(g).wf(),
        keeps_terms(old(g)@, final(g)@),
        final(g).env() == old(g).env(),
        final(g).term(r) == Term::Bin(
            Op::Pow,
            Box::new(old(g).term(arg0)),
            Box::new(old(g).term(arg1)),
        ),
{
    g.binary(Op::Pow, arg0, arg1)
}

impl PtrVWrap {
    /// Puts `v` in place of the value that the node holds.
    ///
    /// For a leaf this is the value that every later evaluation starts
    /// from: the expressions built over the leaf stay as they are, and their
    /// values follow the new value of the leaf. For a constant it changes
    /// the constant; in any other node the next evaluation overwrites it.
    pub fn set_val(&self, g: &mut Graph, v: ValType)
        requires
            old(g).wf(),
            old(g).has(*self),
        ensures
            final(g)@ == old(g)@.update(
                self.0 as int,
                NodeView { val: Some(v), ..old(g)@[self.0 as int] },
            ),
            final(g).wf(),
            old(g)@[self.0 as int].op != Op::Const ==> keeps_terms(old(g)@, final(g)@),
            final(g).env().active == old(g).env().active,
            final(g).env().values == (if old(g)@[self.0 as int].op == Op::Leaf {
                old(g).env().values.insert(self.0 as int, v)
            } else {
                old(g).env().values
            }),
    {
        g.store(*self, v);
        proof {
            if old(g)@[self.0 as int].op != Op::Const {
                assert forall|n: int| 0 <= n < old(g)@.len() implies #[trigger] term_of(g@, n)
                    == term_of(old(g)@, n) by {
                    lemma_term_frame(old(g)@, g@, n);
                }
            }
            assert(g.env().active =~= old(g).env().active);
            if old(g)@[self.0 as int].op == Op::Leaf {
                assert(g.env().values =~= old(g).env().values.insert(self.0 as int, v));
            } else {
                assert(g.env().values =~= old(g).env().values);
            }
        }
    }

    /// Marks the node active and returns its handle. The expressions stay
    /// as they are; a seed of this node is 1 from now on.
    pub fn active(&self, g: &mut Graph) -> (r: PtrVWrap)
        requires
            old(g).wf(),
            old(g).has(*self),
        ensures
            final(g)@ == old(g)@.update(
                self.0 as int,
                NodeView { active: true, ..old(g)@[self.0 as int] },
            ),
            final(g).wf(),
            r == *self,
            keeps_terms(old(g)@, final(g)@),
            final(g).env().values == old(g).env().values,
            final(g).env().active == old(g).env().active.insert(self.0 as int),
    {
        g.mark(*self, true);
        proof {
            assert forall|n: int| 0 <= n < old(g)@.len() implies #[trigger] term_of(g@, n)
                == term_of(old(g)@, n) by {
                lemma_term_frame(old(g)@, g@, n);
            }
            assert(g.env().values =~= old(g).env().values);
            assert(g.env().active =~= old(g).env().active.insert(self.0 as int));
        }
        *self
    }

    /// Marks the node inactive and returns its handle. The expressions stay
    /// as they are; a seed of this node is 0 from now on.
    pub fn inactive(&self, g: &mut Graph) -> (r: PtrVWrap)
        requires
            old(g).wf(),
            old(g).has(*self),
        ensures
            final(g)@ == old(g)@.update(
                self.0 as int,
                NodeView { active: false, ..old(g)@[self.0 as int] },
            ),
            final(g).wf(),
            r == *self,
            keeps_terms(old(g)@, final(g)@),
            final(g).env().values == old(g).env().values,
            final(g).env().active == old(g).env().active.remove(self.0 as int),
    {
        g.mark(*self, false);
        proof {
            assert forall|n: int| 0 <= n < old(g)@.len() implies #[trigger] term_of(g@, n)
                == term_of(old(g)@, n) by {
                lemma_term_frame(old(g)@, g@, n);
            }
            assert(g.env().values =~= old(g).env().values);
            assert(g.env().active =~= old(g).env().active.remove(self.0 as int));
        }
        *self
    }

    /// The adjoint that the node holds, which stays in place.
    pub fn adjoint(&self, g: &Graph) -> (a: Option<PtrVWrap>)
        requires
            g.has(*self),
        ensures
            a == g@[self.0 as int].adjoint,
    {
        g.adjoint_of(*self)
    }

    /// Removes the adjoint that the node holds.
    pub fn reset_adjoint(&self, g: &mut Graph)
        requires
            old(g).wf(),
            old(g).has(*self),
        ensures
            final(g)@ == old(g)@.update(
                self.0 as int,
                NodeView { adjoint: None, ..old(g)@[self.0 as int] },
            ),
            final(g).wf(),
            keeps_terms(old(g)@, final(g)@),
            final(g).env() == old(g).env(),
    {
        g.set_adjoint(*self, None);
        proof {
            assert forall|n: int| 0 <= n < old(g)@.len() implies #[trigger] term_of(g@, n)
                == term_of(old(g)@, n) by {
                lemma_term_frame(old(g)@, g@, n);
            }
            assert(g.env().values =~= old(g).env().values);
            assert(g.env().active =~= old(g).env().active);
        }
    }
}

} // verus!
