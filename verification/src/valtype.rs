//! Scalar values and the arithmetic unit that computes on them.
//!
//! Floating-point numbers are held by their IEEE-754 bit patterns. Every
//! floating-point operation is asked of an arithmetic unit that the caller
//! supplies; integers are computed here.
use vstd::prelude::*;

verus! {

/// A scalar with its type tag.
#[derive(Clone, Copy, Debug, PartialEq, Eq, Structural)]
pub enum ValType {
    /// A single-precision number, by its bit pattern.
    F(u32),
    /// A double-precision number, by its bit pattern.
    D(u64),
    /// A 32-bit integer.
    I(i32),
    /// A 64-bit integer.
    L(i64),
}

/// Bit pattern of the single-precision number 0.
pub const ZERO: u32 = 0;

/// Bit pattern of the single-precision number 1.
pub const ONE: u32 = 0x3F80_0000;

/// Bit pattern of the single-precision number -1.
pub const MINUS_ONE: u32 = 0xBF80_0000;

/// Bit pattern of the single-precision number nearest to 1e-15.
pub const TINY: u32 = 0x2690_1D7D;

/// Bit pattern of the sign of a single-precision number.
pub const SIGN: u32 = 0x8000_0000;

/// One floating-point operation on single-precision bit patterns, or a
/// conversion to single precision.
#[derive(Clone, Copy, Debug, PartialEq, Eq, Structural)]
pub enum FloatCall {
    Add(u32, u32),
    Mul(u32, u32),
    Div(u32, u32),
    /// The first number raised to the second.
    Pow(u32, u32),
    Sin(u32),
    Cos(u32),
    Tan(u32),
    Exp(u32),
    /// Natural logarithm.
    Ln(u32),
    /// The single-precision number nearest to a double-precision one.
    FromDouble(u64),
    /// The single-precision number nearest to a 32-bit integer.
    FromInt(i32),
    /// The single-precision number nearest to a 64-bit integer.
    FromLong(i64),
}

/// A mathematical arithmetic unit: the bit pattern it gives to each operation.
pub type Arithmetic = spec_fn(FloatCall) -> u32;

/// The unit `unit` answers every call.
pub open spec fn answers<U: Fn(FloatCall) -> u32>(unit: &U) -> bool {
    forall|c: FloatCall| #[trigger] unit.requires((c,))
}

/// Whatever `unit` answers to a call is what `u` gives for it.
pub open spec fn computes<U: Fn(FloatCall) -> u32>(unit: &U, u: Arithmetic) -> bool {
    forall|c: FloatCall, r: u32| #[trigger] unit.ensures((c,), r) ==> r == u(c)
}

/// The unit that gives the bit pattern of 0 to every operation.
pub open spec fn blank() -> Arithmetic {
    |c: FloatCall| ZERO
}

/// Why a value could not be computed.
#[derive(Clone, Copy, Debug, PartialEq, Eq, Structural)]
pub enum EvalError {
    /// A leaf or constant holds no value.
    MissingValue,
    /// The operation is not defined on operands of these types.
    UnsupportedTypes,
    /// The sum or product of two integers does not fit their type.
    Overflow,
    /// The node was asked for the value of its adjoint and holds none.
    MissingAdjoint,
}

/// A number without its sign.
pub open spec fn magnitude(bits: u32) -> u32 {
    if bits >= SIGN {
        (bits - SIGN) as u32
    } else {
        bits
    }
}

/// The number is nearer to 0 than 1e-15 is.
pub open spec fn near_zero(bits: u32) -> bool {
    magnitude(bits) < TINY
}

impl ValType {
    /// The value as a single-precision number under the arithmetic `u`.
    pub open spec fn single(self, u: Arithmetic) -> u32 {
        match self {
            ValType::F(b) => b,
            ValType::D(b) => u(FloatCall::FromDouble(b)),
            ValType::I(x) => u(FloatCall::FromInt(x)),
            ValType::L(x) => u(FloatCall::FromLong(x)),
        }
    }

    /// The value with the digits of a single-precision number blanked: what
    /// is known of a value without asking the arithmetic unit.
    pub open spec fn outline(self) -> ValType {
        match self {
            ValType::F(_) => ValType::F(ZERO),
            other => other,
        }
    }

    /// The value as a single-precision number.
    pub fn to_single<U: Fn(FloatCall) -> u32>(self, unit: &U) -> (bits: u32)
        requires
            answers(unit),
        ensures
            forall|u: Arithmetic| computes(unit, u) ==> bits == self.single(u),
            self matches ValType::F(b) ==> bits == b,
    {
        match self {
            ValType::F(b) => b,
            ValType::D(b) => unit(FloatCall::FromDouble(b)),
            ValType::I(x) => unit(FloatCall::FromInt(x)),
            ValType::L(x) => unit(FloatCall::FromLong(x)),
        }
    }
}

/// Whether a single-precision number is nearer to 0 than 1e-15 is.
pub fn is_near_zero(bits: u32) -> (near: bool)
    ensures
        near == near_zero(bits),
{
    let m = if bits >= SIGN {
        bits - SIGN
    } else {
        bits
    };
    m < TINY
}

} // verus!
