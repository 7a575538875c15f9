//! Partial-evaluation algebra over integers: a value is either statically
//! `Known` or not yet resolvable (`Unknown`, e.g. a forward-referenced label).
//! Every operator is total over both variants; only the "must be a constant
//! now" boundary (`try_to_i32`) rejects `Unknown`.
use vstd::prelude::*;

verus! {

#[derive(Debug, Clone, Copy, PartialEq, Eq, Structural)]
pub enum Expression {
    Known(i32),
    Unknown,
}

impl Expression {
    /// Marks the expression as destined for high-RAM addressing; the check
    /// itself is deferred to a later pass, so the value flows through intact.
    pub fn check_hram(self) -> (r: Self)
        ensures
            r == self,
    {
        self
    }

    /// Wraps a resolved integer as a `Known` expression.
    pub fn from(x: i32) -> (r: Self)
        ensures
            r == Expression::Known(x),
    {
        Expression::Known(x)
    }

    /// The "must be a constant now" boundary: yields the integer of a `Known`
    /// value and rejects `Unknown` with the not-constant diagnostic.
    pub fn try_to_i32(self) -> (r: Result<i32, crate::AssemblerError>)
        ensures
            self matches Expression::Known(v) ==> r == Ok::<i32, crate::AssemblerError>(v),
            self is Unknown ==> r == Err::<i32, crate::AssemblerError>(
                crate::AssemblerError::ExprNotConstant,
            ),
    {
        match self {
            Expression::Known(val) => Ok(val),
            Expression::Unknown => Err(crate::AssemblerError::ExprNotConstant),
        }
    }

    /// Bitwise or: `Known | Known` folds immediately; an `Unknown` operand
    /// defers the whole result.
    pub fn bitor(self, rhs: Self) -> (r: Self)
        ensures
            self matches Expression::Known(a) ==> rhs matches Expression::Known(b) ==> r
                == Expression::Known(a | b),
            self is Unknown || rhs is Unknown ==> r is Unknown,
    {
        match (self, rhs) {
            (Expression::Known(a), Expression::Known(b)) => Expression::Known(a | b),
            _ => Expression::Unknown,
        }
    }

    /// Unary negation: `Known(n)` becomes `Known(-n)`; `Unknown` defers.
    pub fn neg(self) -> (r: Self)
        requires
            self matches Expression::Known(v) ==> v != i32::MIN,
        ensures
            self matches Expression::Known(v) ==> r == Expression::Known(-v as i32),
            self is Unknown ==> r is Unknown,
    {
        match self {
            Expression::Known(val) => Expression::Known(-val),
            Expression::Unknown => Expression::Unknown,
        }
    }

    /// Left shift: `Known(n) << Known(k)` folds; an `Unknown` operand defers.
    /// The shift amount must be a valid bit count for a 32-bit value.
    pub fn shl(self, rhs: Self) -> (r: Self)
        requires
            rhs matches Expression::Known(k) ==> 0 <= k < 32,
        ensures
            self matches Expression::Known(a) ==> rhs matches Expression::Known(k) ==> r
                == Expression::Known(a << k),
            self is Unknown || rhs is Unknown ==> r is Unknown,
    {
        match (self, rhs) {
            (Expression::Known(a), Expression::Known(k)) => Expression::Known(a << k),
            _ => Expression::Unknown,
        }
    }
}

} // verus!
