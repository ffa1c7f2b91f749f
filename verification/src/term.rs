//! Expressions as mathematical terms: what a node of a graph stands for, the
//! value of a term, and the terms that the rules of differentiation give.
use vstd::prelude::*;
use crate::operation::Op;
use crate::valtype::{Arithmetic, EvalError, ValType, MINUS_ONE, ONE, ZERO};

verus! {

/// An expression over the leaves of a graph.
pub enum Term {
    /// The leaf at this position of the graph.
    Var(int),
    /// A fixed value.
    Lit(ValType),
    /// The number 0.
    Zero,
    /// The number 1.
    One,
    /// 1 while the leaf at this position is active, else 0.
    Seed(int),
    /// A function of one term: `Sin`, `Cos`, `Tan`, `Exp` or `Ln`.
    Un(Op, Box<Term>),
    /// An operation on two terms: `Add`, `Mul`, `Div` or `Pow`.
    Bin(Op, Box<Term>, Box<Term>),
}

/// The single-precision constant with the bit pattern `bits`.
pub open spec fn lit(bits: u32) -> Term {
    Term::Lit(ValType::F(bits))
}

/// `a + b`
pub open spec fn plus(a: Term, b: Term) -> Term {
    Term::Bin(Op::Add, Box::new(a), Box::new(b))
}

/// `a * b`
pub open spec fn times(a: Term, b: Term) -> Term {
    Term::Bin(Op::Mul, Box::new(a), Box::new(b))
}

/// `a / b`
pub open spec fn over(a: Term, b: Term) -> Term {
    Term::Bin(Op::Div, Box::new(a), Box::new(b))
}

/// `a` raised to `b`
pub open spec fn power(a: Term, b: Term) -> Term {
    Term::Bin(Op::Pow, Box::new(a), Box::new(b))
}

/// `a - b`, written as `a + b * (-1)`
pub open spec fn minus(a: Term, b: Term) -> Term {
    plus(a, times(b, lit(MINUS_ONE)))
}

/// `sin(a)`
pub open spec fn sine(a: Term) -> Term {
    Term::Un(Op::Sin, Box::new(a))
}

/// `cos(a)`
pub open spec fn cosine(a: Term) -> Term {
    Term::Un(Op::Cos, Box::new(a))
}

/// `tan(a)`
pub open spec fn tangent(a: Term) -> Term {
    Term::Un(Op::Tan, Box::new(a))
}

/// `exp(a)`
pub open spec fn exponential(a: Term) -> Term {
    Term::Un(Op::Exp, Box::new(a))
}

/// `ln(a)`
pub open spec fn logarithm(a: Term) -> Term {
    Term::Un(Op::Ln, Box::new(a))
}

/// The values of the leaves and which of them are active.
pub struct Env {
    pub values: Map<int, ValType>,
    pub active: Set<int>,
}

impl Term {
    /// The tangent of the term: its derivative in the direction of the
    /// active leaves, by the rules
    ///
    /// | term | tangent |
    /// |---|---|
    /// | leaf `x` | seed of `x` |
    /// | constant, 0, 1, seed | 0 |
    /// | `a + b` | `a' + b'` |
    /// | `a * b` | `a' * b + a * b'` |
    /// | `a / b` | `(a' * b - a * b') / (b * b)` |
    /// | `a ^ b` | `a ^ b * (b' * ln(a) + (b / a) * a')` |
    /// | `sin(a)` | `cos(a)` |
    /// | `cos(a)` | `-1 * sin(a)` |
    /// | `tan(a)` | `(1 / (cos(a) * cos(a))) * a'` |
    /// | `exp(a)` | `exp(a) * a'` |
    /// | `ln(a)` | `(1 / a) * a'` |
    pub open spec fn tangent(self) -> Term
        decreases self,
    {
        match self {
            Term::Var(x) => Term::Seed(x),
            Term::Lit(_) | Term::Zero | Term::One | Term::Seed(_) => Term::Zero,
            Term::Bin(op, a, b) => match op {
                Op::Add => plus(a.tangent(), b.tangent()),
                Op::Mul => plus(times(a.tangent(), *b), times(*a, b.tangent())),
                Op::Div => over(
                    minus(times(a.tangent(), *b), times(*a, b.tangent())),
                    times(*b, *b),
                ),
                _ => times(
                    power(*a, *b),
                    plus(times(b.tangent(), logarithm(*a)), times(over(*b, *a), a.tangent())),
                ),
            },
            Term::Un(op, a) => match op {
                Op::Sin => cosine(*a),
                Op::Cos => times(lit(MINUS_ONE), sine(*a)),
                Op::Tan => times(over(lit(ONE), times(cosine(*a), cosine(*a))), a.tangent()),
                Op::Exp => times(exponential(*a), a.tangent()),
                _ => times(over(lit(ONE), *a), a.tangent()),
            },
        }
    }

    /// The value of the term where the leaves hold `env.values`, the leaves
    /// in `env.active` are active, and `u` is the arithmetic. The first
    /// operand is computed first, and the first fault met is the result.
    pub open spec fn value(self, env: Env, u: Arithmetic) -> Result<ValType, EvalError>
        decreases self,
    {
        match self {
            Term::Var(x) => if env.values.contains_key(x) {
                Ok(env.values[x])
            } else {
                Err(EvalError::MissingValue)
            },
            Term::Lit(v) => Ok(v),
            Term::Zero => Ok(ValType::F(ZERO)),
            Term::One => Ok(ValType::F(ONE)),
            Term::Seed(x) => Ok(
                ValType::F(
                    if env.active.contains(x) {
                        ONE
                    } else {
                        ZERO
                    },
                ),
            ),
            Term::Un(op, a) => match a.value(env, u) {
                Ok(va) => op.value(seq![(va, false)], None, u),
                Err(e) => Err(e),
            },
            Term::Bin(op, a, b) => match a.value(env, u) {
                Ok(va) => match b.value(env, u) {
                    Ok(vb) => op.value(seq![(va, false), (vb, false)], None, u),
                    Err(e) => Err(e),
                },
                Err(e) => Err(e),
            },
        }
    }
}

/// The adjoints that a node hands to its inputs: `op` is its operation,
/// `ins` are the terms of its inputs and `out` is its own adjoint. Each
/// input gets `out` times the partial derivative of the node by that input:
///
/// | node | adjoints |
/// |---|---|
/// | `a + b` | `out`, `out` |
/// | `a * b` | `b * out`, `a * out` |
/// | `a / b` | `(1 / b) * out`, `((-1 * a) / (b * b)) * out` |
/// | `a ^ b` | `((a ^ (b - 1)) * b) * out`, `((a ^ b) * ln(a)) * out` |
/// | `sin(a)` | `cos(a) * out` |
/// | `cos(a)` | `(-1 * sin(a)) * out` |
/// | `tan(a)` | `(1 / (cos(a) * cos(a))) * out` |
/// | `exp(a)` | `exp(a) * out` |
/// | `ln(a)` | `(1 / a) * out` |
/// | seed | 0 |
///
/// A node without inputs hands out nothing.
pub open spec fn adjoints(op: Op, ins: Seq<Term>, out: Term) -> Seq<Term> {
    match op {
        Op::Leaf | Op::Const | Op::Zero | Op::One => Seq::empty(),
        Op::Link => seq![Term::Zero],
        Op::Add => seq![out, out],
        Op::Mul => seq![times(ins[1], out), times(ins[0], out)],
        Op::Div => seq![
            times(over(lit(ONE), ins[1]), out),
            times(over(times(lit(MINUS_ONE), ins[0]), times(ins[1], ins[1])), out),
        ],
        Op::Pow => seq![
            times(times(power(ins[0], minus(ins[1], lit(ONE))), ins[1]), out),
            times(times(power(ins[0], ins[1]), logarithm(ins[0])), out),
        ],
        Op::Sin => seq![times(cosine(ins[0]), out)],
        Op::Cos => seq![times(times(lit(MINUS_ONE), sine(ins[0])), out)],
        Op::Tan => seq![times(over(lit(ONE), times(cosine(ins[0]), cosine(ins[0]))), out)],
        Op::Exp => seq![times(exponential(ins[0]), out)],
        Op::Ln => seq![times(over(lit(ONE), ins[0]), out)],
    }
}

} // verus!
