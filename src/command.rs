use vstd::prelude::*;

verus! {

/// An operator that combines the two top registers of the calculator's stack.
#[derive(Debug, Clone, Copy, PartialEq, Eq)]
pub enum BinOp {
    Add,
    Sub,
    Mul,
    Div,
    Swp,
    Pow,
    Rt,
    /// The second register times ten to the power of the first.
    Exp,
    IntDiv,
    Mod,
}

/// An operator on the top register of the calculator's stack.
#[derive(Debug, Clone, Copy, PartialEq, Eq)]
pub enum UnOp {
    Neg,
    Sqrt,
    Sqr,
    Sin,
    Cos,
    Tan,
    Asin,
    Acos,
    Atan,
    Rad,
    Deg,
    Pop,
}

} // verus!
