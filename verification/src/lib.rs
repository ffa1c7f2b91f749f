//! Dynamic automatic differentiation over scalar expressions, in forward
//! and reverse mode, to any order.
//!
//! An expression is a node of a [`Graph`], built from leaves by the
//! constructors [`Add`], [`Mul`], [`Div`], [`Pow`], [`Sin`], [`Cos`],
//! [`Tan`], [`Exp`] and [`Ln`]. A node is named by a [`PtrVWrap`], may be an
//! input of many nodes, and stands for a [`term::Term`].
//!
//! * [`PtrVWrap::apply_fwd`] computes the value of a node.
//! * [`PtrVWrap::fwd`] builds the tangent of a node: its derivative in the
//!   direction of the leaves marked active.
//! * [`PtrVWrap::rev`] builds the adjoint of every leaf that a reverse pass
//!   from a node reaches: the derivative of the node by that leaf, as far
//!   as the pass gathered it.
//! * [`PtrVWrap::apply_rev`] computes the value of the adjoint that a node
//!   still holds after a pass.
//!
//! What these build are expressions again, so the modes compose. A leaf can
//! be given a new value at any time; values are computed anew from the
//! leaves at every evaluation.
//!
//! Floating-point numbers are held by their bit patterns, and the
//! floating-point operations are asked of an arithmetic unit that the
//! caller hands to the evaluation ([`FloatCall`]). What is proved of a value
//! holds under every arithmetic that the unit computes.
//!
//! The module [`calculus`] holds what the derivatives mean, and the module
//! [`ricci`] a reader for tensor expressions in index notation.
#![allow(non_snake_case)]

pub mod calculus;
pub mod forward;
pub mod graph;
pub mod operation;
pub mod reverse;
pub mod ricci;
pub mod term;
pub mod valtype;

pub use crate::graph::{Add, Cos, Div, Exp, Graph, Leaf, Ln, Minus, Mul, Pow, PtrVWrap, Sin, Tan};
pub use crate::reverse::Adjoints;
pub use crate::valtype::{EvalError, FloatCall, ValType};
