//! The syntax tree of an arithmetic expression.
use vstd::prelude::*;
use crate::text::{MINUS, PLUS, SLASH, STAR};

verus! {

/// An arithmetic expression as a tree. Each node owns its operands, and the
/// operands of a binary node stand in the order in which they were written.
#[derive(Debug, PartialEq, Eq)]
pub enum Ast {
    /// Unary minus applied to the operand.
    Neg(Box<Ast>),
    /// Left operand plus right operand.
    Add(Box<Ast>, Box<Ast>),
    /// Left operand minus right operand.
    Sub(Box<Ast>, Box<Ast>),
    /// Left operand times right operand.
    Mul(Box<Ast>, Box<Ast>),
    /// Left operand divided by right operand.
    Div(Box<Ast>, Box<Ast>),
    /// An integer.
    Num(i64),
}

impl Clone for Ast {
    /// A copy of the whole tree.
    fn clone(&self) -> (copy: Self)
        ensures
            copy == *self,
        decreases self,
    {
        match self {
            Ast::Neg(u) => Ast::Neg(Box::new((**u).clone())),
            Ast::Add(l, r) => Ast::Add(Box::new((**l).clone()), Box::new((**r).clone())),
            Ast::Sub(l, r) => Ast::Sub(Box::new((**l).clone()), Box::new((**r).clone())),
            Ast::Mul(l, r) => Ast::Mul(Box::new((**l).clone()), Box::new((**r).clone())),
            Ast::Div(l, r) => Ast::Div(Box::new((**l).clone()), Box::new((**r).clone())),
            Ast::Num(v) => Ast::Num(*v),
        }
    }
}

impl Ast {
    /// Whether the node is an addition or a subtraction.
    pub open spec fn is_sum_node(self) -> bool {
        self is Add || self is Sub
    }

    /// Whether the node is a multiplication or a division.
    pub open spec fn is_product_node(self) -> bool {
        self is Mul || self is Div
    }

    /// Whether no number in the tree is below zero. A line writes such trees
    /// only: a `-` before digits is read as a negation.
    pub open spec fn unsigned(self) -> bool
        decreases self,
    {
        match self {
            Ast::Num(v) => v >= 0,
            Ast::Neg(u) => u.unsigned(),
            Ast::Add(l, r) => l.unsigned() && r.unsigned(),
            Ast::Sub(l, r) => l.unsigned() && r.unsigned(),
            Ast::Mul(l, r) => l.unsigned() && r.unsigned(),
            Ast::Div(l, r) => l.unsigned() && r.unsigned(),
        }
    }

    /// The byte that writes the operator of a binary node.
    pub open spec fn sign(self) -> u8 {
        match self {
            Ast::Add(_, _) => PLUS,
            Ast::Sub(_, _) => MINUS,
            Ast::Mul(_, _) => STAR,
            Ast::Div(_, _) => SLASH,
            _ => 0,
        }
    }

    /// The left operand of a binary node.
    pub open spec fn lhs(self) -> Ast {
        match self {
            Ast::Add(l, _) => *l,
            Ast::Sub(l, _) => *l,
            Ast::Mul(l, _) => *l,
            Ast::Div(l, _) => *l,
            _ => self,
        }
    }

    /// The right operand of a binary node.
    pub open spec fn rhs(self) -> Ast {
        match self {
            Ast::Add(_, r) => *r,
            Ast::Sub(_, r) => *r,
            Ast::Mul(_, r) => *r,
            Ast::Div(_, r) => *r,
            _ => self,
        }
    }
}

} // verus!
