//! The shapes an encoded instruction can take: a bare opcode, an opcode
//! with an 8- or 16-bit operand expression, a relative jump, or a restart.
use vstd::prelude::*;

use crate::expression::Expression;

verus! {

/// One instruction, as the parser's semantic actions assemble it: the
/// opcode byte plus however much operand material the form carries.
#[derive(Debug, Clone, Copy, PartialEq, Eq, Structural)]
pub enum Instruction {
    NoArg(i32),
    Arg8(i32, Expression),
    Arg16(i32, Expression),
    Jr(i32, Expression),
    Rst(Expression),
}

} // verus!
