//! The syntax-tree node model: a closed set of tagged node kinds, each
//! stamped with a span and holding arena-borrowed references to its
//! children. The external grammar-driven parser builds nodes bottom-up
//! through `crate::context::Ctx`; each node's span is expected to cover
//! the spans of all its children (`span_contains` states that relation).

use vstd::prelude::*;

use crate::ident::IdentName;
use crate::token::Span;

verus! {

/// An outer span covers an inner one.
pub open spec fn span_contains(outer: Span, inner: Span) -> bool {
    outer.start <= inner.start && inner.end <= outer.end
}

/// Any node of the tree, by reference.
#[derive(Debug, Clone, Copy, PartialEq, Eq, Hash)]
pub enum Node<'a> {
    Class(&'a Class<'a>),
    StmtList(&'a StmtList<'a>),
    Stmt(&'a Stmt<'a>),
    Expr(&'a Expr<'a>),
    FuncDef(&'a FuncDef<'a>),
    ParamList(&'a ParamList<'a>),
    VarDef(&'a VarDef<'a>),
    IdentDef(&'a IdentDef<'a>),
    Ident(&'a Ident),
    Lit(&'a Lit<'a>),
    BinOp(&'a BinOp<'a>),
}

#[derive(Debug, Clone, Copy, PartialEq, Eq, Hash)]
pub struct Class<'a> {
    pub span: Span,
    pub stmt_list: &'a StmtList<'a>,
}

impl<'a> Class<'a> {
    /// The node's span covers its child.
    pub open spec fn spans_nested(&self) -> bool {
        span_contains(self.span, self.stmt_list.span)
    }
}

#[derive(Debug, Clone, Copy, PartialEq, Eq, Hash)]
pub struct StmtList<'a> {
    pub span: Span,
    pub stmts: &'a [&'a Stmt<'a>],
}

impl<'a> StmtList<'a> {
    /// The node's span covers every statement in the list.
    pub open spec fn spans_nested(&self) -> bool {
        forall|i: int|
            0 <= i < self.stmts@.len() ==> span_contains(self.span, #[trigger] self.stmts@[i].span)
    }
}

#[derive(Debug, Clone, Copy, PartialEq, Eq, Hash)]
pub struct Stmt<'a> {
    pub span: Span,
    pub kind: StmtKind<'a>,
}

#[derive(Debug, Clone, Copy, PartialEq, Eq, Hash)]
pub enum StmtKind<'a> {
    Pass,
    Expr(&'a Expr<'a>),
    VarDef(&'a VarDef<'a>),
    FuncDef(&'a FuncDef<'a>),
}

#[derive(Debug, Clone, Copy, PartialEq, Eq, Hash)]
pub struct Expr<'a> {
    pub span: Span,
    pub kind: ExprKind<'a>,
}

#[derive(Debug, Clone, Copy, PartialEq, Eq, Hash)]
pub enum ExprKind<'a> {
    Ident(&'a Ident),
    Lit(&'a Lit<'a>),
    BinOp(&'a BinOp<'a>),
}

#[derive(Debug, Clone, Copy, PartialEq, Eq, Hash)]
pub struct FuncDef<'a> {
    pub span: Span,
    pub name: &'a Ident,
    pub param_list: &'a ParamList<'a>,
    pub result_ty: Option<&'a Expr<'a>>,
    pub body: &'a StmtList<'a>,
}

impl<'a> FuncDef<'a> {
    /// The node's span covers its name, parameters, result type and body.
    pub open spec fn spans_nested(&self) -> bool {
        &&& span_contains(self.span, self.name.span)
        &&& span_contains(self.span, self.param_list.span)
        &&& (self.result_ty is Some ==> span_contains(self.span, self.result_ty->Some_0.span))
        &&& span_contains(self.span, self.body.span)
    }
}

#[derive(Debug, Clone, Copy, PartialEq, Eq, Hash)]
pub struct ParamList<'a> {
    pub span: Span,
    pub params: &'a [&'a IdentDef<'a>],
}

#[derive(Debug, Clone, Copy, PartialEq, Eq, Hash)]
pub struct VarDef<'a> {
    pub span: Span,
    pub def: &'a IdentDef<'a>,
}

#[derive(Debug, Clone, Copy, PartialEq, Eq, Hash)]
pub struct IdentDef<'a> {
    pub span: Span,
    pub name: &'a Ident,
    pub ty: Option<&'a Expr<'a>>,
    pub val: Option<&'a Expr<'a>>,
    pub strict_type: bool,
}

#[derive(Debug, Clone, Copy, PartialEq, Eq, Hash)]
pub struct Ident {
    pub span: Span,
    pub name: IdentName,
}

#[derive(Debug, Clone, Copy, PartialEq, Eq, Hash)]
pub struct Lit<'a> {
    pub span: Span,
    pub kind: LitKind<'a>,
}

#[derive(Debug, Clone, Copy, PartialEq, Eq, Hash)]
pub enum LitKind<'a> {
    Int(i128),
    Str(&'a str),
}

#[derive(Debug, Clone, Copy, PartialEq, Eq, Hash)]
pub struct BinOp<'a> {
    pub span: Span,
    pub kind: BinOpKind,
    pub lhs: &'a Expr<'a>,
    pub rhs: &'a Expr<'a>,
}

impl<'a> BinOp<'a> {
    /// The node's span covers both operands.
    pub open spec fn spans_nested(&self) -> bool {
        span_contains(self.span, self.lhs.span) && span_contains(self.span, self.rhs.span)
    }
}

#[derive(Debug, Clone, Copy, PartialEq, Eq, Hash)]
pub enum BinOpKind {
    Add,
    Sub,
    Mul,
    Div,
}

} // verus!
