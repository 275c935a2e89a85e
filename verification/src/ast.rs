//! Abstract syntax tree of the surface language.

use vstd::prelude::*;
use crate::num::Num;
use crate::span::Span;
use crate::text::{owned, push_char, push_str, str_eq};

verus! {

#[derive(Debug)]
pub struct Program {
    pub items: Vec<Item>,
}

#[derive(Debug)]
pub enum Item {
    Define(DefineDecl),
    Type(TypeDecl),
    Familiar(FamiliarDecl),
    Stmt(Stmt),
}

/// A `familiar`: a bounded, named composite. Its `permits` set is the
/// checkable capability boundary: the body is granted exactly these
/// capabilities and no others.
#[derive(Debug)]
pub struct FamiliarDecl {
    pub name: String,
    pub params: Vec<Param>,
    pub permits: Vec<Capability>,
    pub body: Vec<Stmt>,
    pub span: Span,
}

#[derive(Debug)]
pub struct DefineDecl {
    pub name: String,
    pub params: Vec<Param>,
    pub ret: Option<TypeExpr>,
    /// Capabilities this function requires of its callers.
    pub requires: Vec<Capability>,
    pub body: Vec<Stmt>,
    pub span: Span,
}

/// A capability identity: a `kind` plus an optional `param` (e.g.
/// `permit(network)`, `invoke triage`, `scope(tenant)`). Two capabilities are
/// the same only when both kind and param match.
#[derive(Clone, Debug)]
pub struct Capability {
    pub kind: String,
    pub param: Option<String>,
    pub span: Span,
}

/// The character sequence of an optional string.
pub open spec fn opt_view(o: Option<String>) -> Option<Seq<char>> {
    match o {
        Some(s) => Some(s@),
        None => None,
    }
}

impl Capability {
    pub open spec fn spec_display(&self) -> Seq<char> {
        match self.param {
            Some(p) => self.kind@ + seq!['('] + p@ + seq![')'],
            None => self.kind@,
        }
    }

    /// Human-readable identity, e.g. `permit(escalate)` or `scope`.
    pub fn display(&self) -> (r: String)
        ensures
            r@ == self.spec_display(),
    {
        match &self.param {
            Some(p) => {
                let mut s = self.kind.clone();
                push_char(&mut s, '(');
                push_str(&mut s, p.as_str());
                push_char(&mut s, ')');
                assert(s@ =~= self.spec_display());
                s
            },
            None => self.kind.clone(),
        }
    }

    pub open spec fn spec_same(&self, other: &Capability) -> bool {
        self.kind@ == other.kind@ && opt_view(self.param) == opt_view(other.param)
    }

    /// Equality of identity (the span is ignored).
    pub fn same(&self, other: &Capability) -> (r: bool)
        ensures
            r == self.spec_same(other),
    {
        if !str_eq(self.kind.as_str(), other.kind.as_str()) {
            return false;
        }
        match (&self.param, &other.param) {
            (Some(a), Some(b)) => str_eq(a.as_str(), b.as_str()),
            (None, None) => true,
            _ => false,
        }
    }
}

#[derive(Debug)]
pub struct Param {
    pub name: String,
    pub ty: Option<TypeExpr>,
    pub span: Span,
}

#[derive(Debug)]
pub struct TypeDecl {
    pub name: String,
    pub ty: TypeExpr,
    pub span: Span,
}

/// A type as written in source.
#[derive(Debug)]
pub enum TypeExpr {
    /// `spark`, `glyph`, `bool`, `oracle`, or a declared type name.
    Named(String, Span),
    /// `base in lo..hi`
    Refined { base: String, lo: Num, hi: Num, span: Span },
    /// `{ field: T, ... }`
    Record(Vec<(String, TypeExpr)>, Span),
    /// `one_of { A, B(field: T), ... }`
    OneOf(Vec<VariantDef>, Span),
    /// `list of lo..hi of T`, or unbounded `list of T`.
    List { elem: Box<TypeExpr>, lo: Option<Num>, hi: Option<Num>, span: Span },
}

impl TypeExpr {
    pub open spec fn spec_span(&self) -> Span {
        match self {
            TypeExpr::Named(_, s) => *s,
            TypeExpr::Refined { span, .. } => *span,
            TypeExpr::Record(_, s) => *s,
            TypeExpr::OneOf(_, s) => *s,
            TypeExpr::List { span, .. } => *span,
        }
    }

    pub fn span(&self) -> (r: Span)
        ensures
            r == self.spec_span(),
    {
        match self {
            TypeExpr::Named(_, s) => *s,
            TypeExpr::Refined { span, .. } => *span,
            TypeExpr::Record(_, s) => *s,
            TypeExpr::OneOf(_, s) => *s,
            TypeExpr::List { span, .. } => *span,
        }
    }
}

#[derive(Debug)]
pub struct VariantDef {
    pub name: String,
    pub fields: Vec<(String, TypeExpr)>,
    pub span: Span,
}

#[derive(Debug)]
pub enum Stmt {
    Let { name: String, ty: Option<TypeExpr>, value: Expr, span: Span },
    Var { name: String, ty: Option<TypeExpr>, value: Expr, span: Span },
    Assign { name: String, value: Expr, span: Span },
    Speak { value: Expr, span: Span },
    While { cond: Expr, body: Vec<Stmt>, span: Span },
    If { cond: Expr, then_branch: Vec<Stmt>, else_branch: Option<Vec<Stmt>>, span: Span },
    /// `oracle name = summon "model-id"`
    Summon { name: String, model: String, span: Span },
    Divine(DivineStmt),
    Enact { subject: Expr, arms: Vec<EnactArm>, span: Span },
    /// `with grant <caps> { ... }`: grants capabilities to the enclosed region.
    Grant { caps: Vec<Capability>, body: Vec<Stmt>, span: Span },
    /// `memory <name> { scope S, retention N unit, retrieval R, audit required }`
    MemoryDecl(MemoryDecl),
    /// `within <scope> { ... }`: grants `scope(<scope>)` to the region.
    Within { scope: String, body: Vec<Stmt>, span: Span },
    Return { value: Option<Expr>, span: Span },
    Expr(Expr),
}

/// `divine name: OutType from (inputs) using oracle with confidence >= θ fallback E`
#[derive(Debug)]
pub struct DivineStmt {
    pub name: String,
    pub out_ty: TypeExpr,
    pub inputs: Vec<Expr>,
    pub oracle: String,
    pub oracle_span: Span,
    /// The discharge clause is optional in the grammar; the type system
    /// enforces discharge.
    pub threshold: Option<Num>,
    pub fallback: Option<Expr>,
    pub span: Span,
}

/// A governed-memory declaration. `scope` is required (checked); the rest are
/// governance settings enforced at run time.
#[derive(Debug)]
pub struct MemoryDecl {
    pub name: String,
    pub scope: Option<String>,
    /// `(amount, unit)`; the unit is cosmetic.
    pub retention: Option<(Num, String)>,
    pub retrieval: Vec<String>,
    pub audit_required: bool,
    pub span: Span,
}

#[derive(Debug)]
pub struct EnactArm {
    pub variant: String,
    pub bindings: Vec<String>,
    pub body: Vec<Stmt>,
    pub span: Span,
}

#[derive(Debug)]
pub enum Expr {
    Number(Num, Span),
    Bool(bool, Span),
    /// A `glyph` literal made of literal text and interpolated expressions.
    Str(Vec<StrSeg>, Span),
    Ident(String, Span),
    Unary { op: UnOp, rhs: Box<Expr>, span: Span },
    Binary { op: BinOp, lhs: Box<Expr>, rhs: Box<Expr>, span: Span },
    Call { callee: String, args: Vec<Expr>, span: Span },
    /// `recv.method(args)`, e.g. `oracle.embed(...)` or `memory.recent(n)`.
    Method { recv: Box<Expr>, method: String, args: Vec<Expr>, span: Span },
    Field { recv: Box<Expr>, field: String, span: Span },
    /// `Variant(field: expr, ...)` or `Variant`
    Variant { name: String, fields: Vec<(String, Expr)>, span: Span },
    /// `[a, b, c]`
    List { items: Vec<Expr>, span: Span },
    /// `{ field: expr, ... }`
    Record { fields: Vec<(String, Expr)>, span: Span },
}

impl Expr {
    pub open spec fn spec_span(&self) -> Span {
        match self {
            Expr::Number(_, s) => *s,
            Expr::Bool(_, s) => *s,
            Expr::Str(_, s) => *s,
            Expr::Ident(_, s) => *s,
            Expr::Unary { span, .. } => *span,
            Expr::Binary { span, .. } => *span,
            Expr::Call { span, .. } => *span,
            Expr::Method { span, .. } => *span,
            Expr::Field { span, .. } => *span,
            Expr::Variant { span, .. } => *span,
            Expr::List { span, .. } => *span,
            Expr::Record { span, .. } => *span,
        }
    }

    pub fn span(&self) -> (r: Span)
        ensures
            r == self.spec_span(),
    {
        match self {
            Expr::Number(_, s) => *s,
            Expr::Bool(_, s) => *s,
            Expr::Str(_, s) => *s,
            Expr::Ident(_, s) => *s,
            Expr::Unary { span, .. } => *span,
            Expr::Binary { span, .. } => *span,
            Expr::Call { span, .. } => *span,
            Expr::Method { span, .. } => *span,
            Expr::Field { span, .. } => *span,
            Expr::Variant { span, .. } => *span,
            Expr::List { span, .. } => *span,
            Expr::Record { span, .. } => *span,
        }
    }
}

#[derive(Debug)]
pub enum StrSeg {
    Lit(String),
    Interp(Box<Expr>),
}

#[derive(Clone, Copy, Debug, PartialEq, Eq, Structural)]
pub enum UnOp {
    Neg,
    Not,
}

#[derive(Clone, Copy, Debug, PartialEq, Eq, Structural)]
pub enum BinOp {
    Add,
    Sub,
    Mul,
    Div,
    Lt,
    Le,
    Gt,
    Ge,
    Eq,
    Ne,
    And,
    Or,
}

} // verus!
