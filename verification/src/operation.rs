//! The operations of an expression graph and the rule by which each one
//! computes its value from the values of its inputs.
use vstd::prelude::*;
use crate::valtype::{
    answers, blank, computes, is_near_zero, near_zero, Arithmetic, EvalError, FloatCall, ValType,
    ONE, ZERO,
};

verus! {

/// What a node of an expression graph does.
#[derive(Clone, Copy, Debug, PartialEq, Eq, Structural)]
pub enum Op {
    /// A variable: holds a value that the caller may change.
    Leaf,
    /// A fixed value.
    Const,
    /// The number 0.
    Zero,
    /// The number 1.
    One,
    /// The seed of a leaf: 1 while the leaf is active, else 0.
    Link,
    Add,
    Mul,
    Div,
    Pow,
    Sin,
    Cos,
    Tan,
    Exp,
    Ln,
}

impl Op {
    /// The number of inputs that a node with this operation has.
    pub open spec fn arity(self) -> nat {
        match self {
            Op::Leaf | Op::Const | Op::Zero | Op::One => 0,
            Op::Link | Op::Sin | Op::Cos | Op::Tan | Op::Exp | Op::Ln => 1,
            Op::Add | Op::Mul | Op::Div | Op::Pow => 2,
        }
    }

    /// The call that asks an arithmetic unit for this operation on one number.
    pub open spec fn call1(self, x: u32) -> FloatCall {
        match self {
            Op::Sin => FloatCall::Sin(x),
            Op::Cos => FloatCall::Cos(x),
            Op::Tan => FloatCall::Tan(x),
            Op::Exp => FloatCall::Exp(x),
            _ => FloatCall::Ln(x),
        }
    }

    /// The call that asks an arithmetic unit for this operation on two numbers.
    pub open spec fn call2(self, x: u32, y: u32) -> FloatCall {
        match self {
            Op::Add => FloatCall::Add(x, y),
            Op::Mul => FloatCall::Mul(x, y),
            Op::Div => FloatCall::Div(x, y),
            _ => FloatCall::Pow(x, y),
        }
    }

    /// The sum (for `Add`) or product (for `Mul`) of two 32-bit integers,
    /// where it fits.
    pub open spec fn whole(self, x: i32, y: i32) -> Result<ValType, EvalError> {
        let exact = if self == Op::Add {
            x + y
        } else {
            x * y
        };
        if i32::MIN <= exact <= i32::MAX {
            Ok(ValType::I(exact as i32))
        } else {
            Err(EvalError::Overflow)
        }
    }

    /// The sum (for `Add`) or product (for `Mul`) of two values. Two
    /// single-precision numbers give one, two 32-bit integers give one, and
    /// of a single-precision number and a 32-bit integer the integer is
    /// converted first. No other pair of types is supported.
    pub open spec fn blend(self, a: ValType, b: ValType, u: Arithmetic) -> Result<
        ValType,
        EvalError,
    > {
        match (a, b) {
            (ValType::F(x), ValType::F(y)) => Ok(ValType::F(u(self.call2(x, y)))),
            (ValType::I(x), ValType::I(y)) => self.whole(x, y),
            (ValType::F(x), ValType::I(y)) => Ok(
                ValType::F(u(self.call2(x, u(FloatCall::FromInt(y))))),
            ),
            (ValType::I(x), ValType::F(y)) => Ok(
                ValType::F(u(self.call2(u(FloatCall::FromInt(x)), y))),
            ),
            _ => Err(EvalError::UnsupportedTypes),
        }
    }

    /// The value of a node with this operation: `args` holds, for each input
    /// in order, its value and whether it is active; `prev` is the value that
    /// the node held before; `u` is the arithmetic.
    ///
    /// A leaf or constant keeps its value. A link is 1 where its input is
    /// active, else 0. Quotient, power and the transcendental functions take
    /// their operands as single-precision numbers and give one; a power whose
    /// exponent is nearer to 0 than 1e-15 is 1.
    pub open spec fn value(
        self,
        args: Seq<(ValType, bool)>,
        prev: Option<ValType>,
        u: Arithmetic,
    ) -> Result<ValType, EvalError> {
        match self {
            Op::Leaf | Op::Const => match prev {
                Some(v) => Ok(v),
                None => Err(EvalError::MissingValue),
            },
            Op::Zero => Ok(ValType::F(ZERO)),
            Op::One => Ok(ValType::F(ONE)),
            Op::Link => Ok(
                ValType::F(
                    if args[0].1 {
                        ONE
                    } else {
                        ZERO
                    },
                ),
            ),
            Op::Add | Op::Mul => self.blend(args[0].0, args[1].0, u),
            Op::Div => Ok(ValType::F(u(self.call2(args[0].0.single(u), args[1].0.single(u))))),
            Op::Pow => if near_zero(args[1].0.single(u)) {
                Ok(ValType::F(ONE))
            } else {
                Ok(ValType::F(u(self.call2(args[0].0.single(u), args[1].0.single(u)))))
            },
            Op::Sin | Op::Cos | Op::Tan | Op::Exp | Op::Ln => Ok(
                ValType::F(u(self.call1(args[0].0.single(u)))),
            ),
        }
    }

    /// The number of inputs that a node with this operation has.
    pub fn inputs(self) -> (n: usize)
        ensures
            n == self.arity(),
    {
        match self {
            Op::Leaf | Op::Const | Op::Zero | Op::One => 0,
            Op::Link | Op::Sin | Op::Cos | Op::Tan | Op::Exp | Op::Ln => 1,
            Op::Add | Op::Mul | Op::Div | Op::Pow => 2,
        }
    }
}

/// A result with the digits of a single-precision number blanked.
pub open spec fn outline(r: Result<ValType, EvalError>) -> Result<ValType, EvalError> {
    match r {
        Ok(v) => Ok(v.outline()),
        Err(e) => Err(e),
    }
}

/// Two lists of arguments agree but for the digits of single-precision
/// numbers and, where `op` is no link, for the active marks.
pub open spec fn same_outlines(op: Op, a: Seq<(ValType, bool)>, b: Seq<(ValType, bool)>) -> bool {
    &&& a.len() == b.len()
    &&& forall|k: int| 0 <= k < a.len() ==> (#[trigger] a[k]).0.outline() == b[k].0.outline()
    &&& op == Op::Link ==> a[0].1 == b[0].1
}

/// Whether a value can be computed, its type, every integer in it and the
/// fault if there is one depend neither on the arithmetic nor on the digits
/// of the single-precision numbers among the arguments.
pub proof fn lemma_value_outline(
    op: Op,
    a: Seq<(ValType, bool)>,
    b: Seq<(ValType, bool)>,
    prev_a: Option<ValType>,
    prev_b: Option<ValType>,
    ua: Arithmetic,
    ub: Arithmetic,
)
    requires
        a.len() == op.arity(),
        same_outlines(op, a, b),
        (op == Op::Leaf || op == Op::Const) ==> prev_a == prev_b,
    ensures
        outline(op.value(a, prev_a, ua)) == outline(op.value(b, prev_b, ub)),
{
    if op.arity() >= 1 {
        assert(a[0].0.outline() == b[0].0.outline());
    }
    if op.arity() >= 2 {
        assert(a[1].0.outline() == b[1].0.outline());
    }
}

/// Asks `unit` for an operation on one number.
fn ask1<U: Fn(FloatCall) -> u32>(op: Op, x: u32, unit: &U) -> (bits: u32)
    requires
        answers(unit),
        op == Op::Sin || op == Op::Cos || op == Op::Tan || op == Op::Exp || op == Op::Ln,
    ensures
        forall|u: Arithmetic| computes(unit, u) ==> bits == u(op.call1(x)),
{
    match op {
        Op::Sin => unit(FloatCall::Sin(x)),
        Op::Cos => unit(FloatCall::Cos(x)),
        Op::Tan => unit(FloatCall::Tan(x)),
        Op::Exp => unit(FloatCall::Exp(x)),
        _ => unit(FloatCall::Ln(x)),
    }
}

/// Asks `unit` for an operation on two numbers.
fn ask2<U: Fn(FloatCall) -> u32>(op: Op, x: u32, y: u32, unit: &U) -> (bits: u32)
    requires
        answers(unit),
        op == Op::Add || op == Op::Mul || op == Op::Div || op == Op::Pow,
    ensures
        forall|u: Arithmetic| computes(unit, u) ==> bits == u(op.call2(x, y)),
{
    match op {
        Op::Add => unit(FloatCall::Add(x, y)),
        Op::Mul => unit(FloatCall::Mul(x, y)),
        Op::Div => unit(FloatCall::Div(x, y)),
        _ => unit(FloatCall::Pow(x, y)),
    }
}

/// The sum or product of two values, by the promotion rules of [`Op::blend`].
fn blend<U: Fn(FloatCall) -> u32>(op: Op, a: ValType, b: ValType, unit: &U) -> (r: Result<
    ValType,
    EvalError,
>)
    requires
        answers(unit),
        op == Op::Add || op == Op::Mul,
    ensures
        forall|u: Arithmetic| computes(unit, u) ==> r == op.blend(a, b, u),
        outline(r) == outline(op.blend(a, b, blank())),
{
    match (a, b) {
        (ValType::F(x), ValType::F(y)) => Ok(ValType::F(ask2(op, x, y, unit))),
        (ValType::I(x), ValType::I(y)) => {
            let exact = match op {
                Op::Add => x.checked_add(y),
                _ => x.checked_mul(y),
            };
            match exact {
                Some(z) => Ok(ValType::I(z)),
                None => Err(EvalError::Overflow),
            }
        },
        (ValType::F(x), ValType::I(y)) => {
            let y1 = unit(FloatCall::FromInt(y));
            Ok(ValType::F(ask2(op, x, y1, unit)))
        },
        (ValType::I(x), ValType::F(y)) => {
            let x1 = unit(FloatCall::FromInt(x));
            Ok(ValType::F(ask2(op, x1, y, unit)))
        },
        _ => Err(EvalError::UnsupportedTypes),
    }
}

/// Computes the value of a node from the values of its inputs.
///
/// Under any arithmetic that `unit` computes, the result is
/// [`Op::value`]. Whatever `unit` answers, the result differs from that
/// value at most in the digits of a single-precision number, and not at all
/// for a node without inputs or a link, which ask nothing of the unit.
pub fn evaluate<U: Fn(FloatCall) -> u32>(
    op: Op,
    args: &Vec<(ValType, bool)>,
    prev: Option<ValType>,
    unit: &U,
) -> (r: Result<ValType, EvalError>)
    requires
        answers(unit),
        args.len() == op.arity(),
    ensures
        forall|u: Arithmetic| computes(unit, u) ==> r == op.value(args@, prev, u),
        outline(r) == outline(op.value(args@, prev, blank())),
        op.arity() == 0 || op == Op::Link ==> r == op.value(args@, prev, blank()),
{
    match op {
        Op::Leaf | Op::Const => match prev {
            Some(v) => Ok(v),
            None => Err(EvalError::MissingValue),
        },
        Op::Zero => Ok(ValType::F(ZERO)),
        Op::One => Ok(ValType::F(ONE)),
        Op::Link => {
            if args[0].1 {
                Ok(ValType::F(ONE))
            } else {
                Ok(ValType::F(ZERO))
            }
        },
        Op::Add | Op::Mul => blend(op, args[0].0, args[1].0, unit),
        Op::Div => {
            let a = args[0].0.to_single(unit);
            let b = args[1].0.to_single(unit);
            Ok(ValType::F(ask2(op, a, b, unit)))
        },
        Op::Pow => {
            let base = args[0].0.to_single(unit);
            let expo = args[1].0.to_single(unit);
            if is_near_zero(expo) {
                Ok(ValType::F(ONE))
            } else {
                Ok(ValType::F(ask2(op, base, expo, unit)))
            }
        },
        Op::Sin | Op::Cos | Op::Tan | Op::Exp | Op::Ln => {
            let a = args[0].0.to_single(unit);
            Ok(ValType::F(ask1(op, a, unit)))
        },
    }
}

} // verus!
