//! The expression tree that the evaluator consumes.

use crate::number::Number;
use crate::symbol::Symbol;
use std::rc::Rc;
use vstd::prelude::*;
use vstd::string::*;

verus! {

/// An expression. Sub-expressions are shared by reference counting, so that
/// thunks and closures can hold a part of the tree without copying it.
#[derive(Debug, Clone)]
pub enum Expr {
    Null,
    Bool(bool),
    Number(Number),
    String(Rc<String>),
    Array(Vec<Rc<Expr>>),
    Dict(Vec<(String, Rc<Expr>)>),
    Function(Vec<Symbol>, Rc<Expr>),
    Variable(Symbol),
    UnaryOp(UnaryOp, Rc<Expr>),
    BinaryOp(BinaryOp, Rc<Expr>, Rc<Expr>),
    If(Rc<Expr>, Rc<Expr>, Rc<Expr>),
    Local(Symbol, Rc<Expr>, Rc<Expr>),
    FunctionCall(Rc<Expr>, Vec<Rc<Expr>>),
    FieldAccess(Rc<Expr>, Symbol),
    IndexAccess(Rc<Expr>, Rc<Expr>),
}

/// A unary operator.
#[derive(Debug, Copy, Clone, PartialEq, Eq, Structural)]
pub enum UnaryOp {
    Neg,
    Not,
}

/// A binary operator.
#[derive(Debug, Copy, Clone, PartialEq, Eq, Structural)]
pub enum BinaryOp {
    Add,
    Sub,
    Mul,
    Div,
    Mod,
    Eq,
    NotEq,
    And,
    Or,
}

/// A type as an annotation writes it: a name, or a name applied to types.
#[derive(Debug)]
pub enum TypeExpr {
    Simple(String),
    Constructor(String, Vec<TypeExpr>),
}

/// The text of the first `n` annotations of a list, separated by `", "`.
pub open spec fn type_expr_list_text(types: Seq<TypeExpr>, n: nat) -> Seq<char>
    decreases types, n,
{
    if n == 0 || n > types.len() {
        Seq::empty()
    } else if n == 1 {
        type_expr_text(types[0])
    } else {
        type_expr_list_text(types, (n - 1) as nat) + ", "@ + type_expr_text(types[n - 1])
    }
}

/// The text of an annotation: `Name`, or `Name[P, Q]`.
pub open spec fn type_expr_text(t: TypeExpr) -> Seq<char>
    decreases t,
{
    match t {
        TypeExpr::Simple(name) => name@,
        TypeExpr::Constructor(name, params) => name@ + "["@ + type_expr_list_text(
            params@,
            params@.len(),
        ) + "]"@,
    }
}

impl TypeExpr {
    /// The text of the annotation.
    pub fn to_string(&self) -> (r: String)
        ensures
            r@ == type_expr_text(*self),
        decreases *self,
    {
        match self {
            TypeExpr::Simple(name) => name.clone(),
            TypeExpr::Constructor(name, params) => {
                let mut out = name.clone();
                out.append("[");
                let ghost prefix = out@;
                let mut i: usize = 0;
                assert(out@ =~= prefix + type_expr_list_text(params@, 0));
                while i < params.len()
                    invariant
                        i <= params.len(),
                        prefix == name@ + "["@,
                        out@ == prefix + type_expr_list_text(params@, i as nat),
                        decreases_to!(*self => *params),
                    decreases params.len() - i,
                {
                    if i > 0 {
                        out.append(", ");
                    }
                    assert(decreases_to!(*params => params[i as int]));
                    let inner = params[i].to_string();
                    out.append(inner.as_str());
                    i = i + 1;
                }
                out.append("]");
                out
            },
        }
    }
}

} // verus!
