//! The syntax tree of a Graphol program.
use std::rc::Rc;
use vstd::prelude::*;

verus! {

/// A whole program: the top-level expressions, in source order.
#[derive(Debug)]
pub struct Program {
    pub expressions: Rc<Vec<Expr>>,
}

/// One expression: its first node is the receiver, the rest are messages.
#[derive(Debug)]
pub struct Expr {
    pub nodes: Vec<NodeExpr>,
}

/// One node of an expression.
#[derive(Debug)]
pub enum NodeExpr {
    Identifier(String),
    StringLiteral(String),
    BlockLiteral(BlockLiteral),
    SubExpression(Box<Expr>),
    Reserved(ReservedToken),
}

/// A `{ ... }` block with its identifier and body.
#[derive(Debug)]
pub struct BlockLiteral {
    pub id: usize,
    pub expressions: Rc<Vec<Expr>>,
}

/// A reserved operator or control word.
#[derive(Debug, Clone, Copy, PartialEq, Eq, Structural)]
pub enum ReservedToken {
    Arithmetic(ArithmeticOp),
    Logic(LogicOp),
    Boolean(BooleanOp),
    Control(ControlOp),
}

/// `+ - * / ^`
#[derive(Debug, Clone, Copy, PartialEq, Eq, Structural)]
pub enum ArithmeticOp {
    Add,
    Sub,
    Mul,
    Div,
    Xor,
}

/// `= != > < >= <=`
#[derive(Debug, Clone, Copy, PartialEq, Eq, Structural)]
pub enum LogicOp {
    Eq,
    Ne,
    Gt,
    Lt,
    Ge,
    Le,
}

/// `& | ! x|`
#[derive(Debug, Clone, Copy, PartialEq, Eq, Structural)]
pub enum BooleanOp {
    And,
    Or,
    Not,
    Xor,
}

/// `break` and `continue`.
#[derive(Debug, Clone, Copy, PartialEq, Eq, Structural)]
pub enum ControlOp {
    Break,
    Continue,
}

/// The source word of a control operator.
pub open spec fn control_keyword(op: ControlOp) -> Seq<char> {
    match op {
        ControlOp::Break => seq!['b', 'r', 'e', 'a', 'k'],
        ControlOp::Continue => seq!['c', 'o', 'n', 't', 'i', 'n', 'u', 'e'],
    }
}

impl ControlOp {
    /// The word that writes this operator in source text.
    pub fn keyword(&self) -> (r: &'static str)
        ensures
            r@ == control_keyword(*self),
    {
        proof {
            reveal_strlit("break");
            reveal_strlit("continue");
        }
        match self {
            ControlOp::Break => "break",
            ControlOp::Continue => "continue",
        }
    }
}

} // verus!
