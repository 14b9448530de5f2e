//! The surface syntax the elaborator reads, as the parser hands it over:
//! every child the grammar allows to be missing is optional, and every node
//! keeps its source range.

use vstd::prelude::*;
use crate::diagnostics::TextRange;

verus! {

/// How a binder is written: `(x : A)`, `{x : A}` or `[x : A]`.
#[derive(Debug, Clone, Copy, PartialEq, Eq, Hash, Structural)]
pub enum BinderInfo {
    Explicit,
    Implicit,
    InstanceImplicit,
}

/// A possibly qualified name `a::b::c`: the path segments (`None` for a
/// segment with no identifier) and the member.
#[derive(Debug)]
pub struct Name {
    pub path: Vec<Option<String>>,
    pub member: Option<String>,
    pub range: TextRange,
}

/// A literal: its token text, where the parser found one.
#[derive(Debug)]
pub enum LiteralNode {
    Number { text: Option<String>, range: TextRange },
    Str { text: Option<String>, range: TextRange },
}

/// A binder of a declaration or a function type.
#[derive(Debug)]
pub struct Binder {
    pub info: BinderInfo,
    pub name: Option<String>,
    pub ty: Option<Box<Type>>,
    pub range: TextRange,
}

/// A type expression.
#[derive(Debug)]
pub enum Type {
    /// `(x : A) -> B`.
    Pi { binder: Option<Box<Binder>>, ty: Option<Box<Type>>, range: TextRange },
    Name(Name),
    /// `F A`.
    App { func: Option<Box<Type>>, arg: Option<Box<Type>>, range: TextRange },
    /// `A -> B`.
    Arrow { dom: Option<Box<Type>>, cod: Option<Box<Type>>, range: TextRange },
    Paren { inner: Option<Box<Type>>, range: TextRange },
}

/// An expression.
#[derive(Debug)]
pub enum Expr {
    Literal(LiteralNode),
    Name(Name),
    Paren { inner: Option<Box<Expr>>, range: TextRange },
    Block { stmts: Vec<Stmt>, range: TextRange },
    /// `f a`.
    App { func: Option<Box<Expr>>, arg: Option<Box<Expr>>, range: TextRange },
}

/// A statement of a block.
#[derive(Debug)]
pub enum Stmt {
    /// `let x = e;`.
    Let { name: Option<String>, expr: Option<Expr>, range: TextRange },
    /// `x = e;`, a new version of an existing local.
    Mutation { name: Option<String>, expr: Option<Expr>, range: TextRange },
    /// `return e;`.
    Return { expr: Option<Expr>, range: TextRange },
}

impl Expr {
    /// The source range of the expression.
    pub open spec fn spec_range(self) -> TextRange {
        match self {
            Expr::Literal(LiteralNode::Number { range, .. }) => range,
            Expr::Literal(LiteralNode::Str { range, .. }) => range,
            Expr::Name(n) => n.range,
            Expr::Paren { range, .. } => range,
            Expr::Block { range, .. } => range,
            Expr::App { range, .. } => range,
        }
    }

    /// The source range of the expression.
    pub fn range(&self) -> (r: TextRange)
        ensures
            r == self.spec_range(),
    {
        match self {
            Expr::Literal(LiteralNode::Number { range, .. }) => *range,
            Expr::Literal(LiteralNode::Str { range, .. }) => *range,
            Expr::Name(n) => n.range,
            Expr::Paren { range, .. } => *range,
            Expr::Block { range, .. } => *range,
            Expr::App { range, .. } => *range,
        }
    }
}


/// A `def`: its binders, return type and body.
#[derive(Debug)]
pub struct DefDecl {
    pub binders: Vec<Binder>,
    pub return_type: Option<Type>,
    pub body: Option<Expr>,
    pub range: TextRange,
}

/// A constructor of an inductive: its binders and return type.
#[derive(Debug)]
pub struct ConstructorDecl {
    pub binders: Vec<Binder>,
    pub return_type: Option<Type>,
    pub range: TextRange,
}

/// An `inductive`: its parameters, return type and constructors.
#[derive(Debug)]
pub struct InductiveDecl {
    pub params: Vec<Binder>,
    pub return_type: Option<Type>,
    pub constructors: Vec<ConstructorDecl>,
    pub range: TextRange,
}

/// A declaration of a file.
#[derive(Debug)]
pub enum Decl {
    Def(DefDecl),
    Inductive(InductiveDecl),
    /// `import ...`, with its group where the parser found one.
    Import { group: Option<crate::import::ImportGroup>, range: TextRange },
}

impl Decl {
    /// The source range of the declaration.
    pub open spec fn spec_range(self) -> TextRange {
        match self {
            Decl::Def(d) => d.range,
            Decl::Inductive(d) => d.range,
            Decl::Import { range, .. } => range,
        }
    }

    /// The source range of the declaration.
    pub fn range(&self) -> (r: TextRange)
        ensures
            r == self.spec_range(),
    {
        match self {
            Decl::Def(d) => d.range,
            Decl::Inductive(d) => d.range,
            Decl::Import { range, .. } => *range,
        }
    }
}

impl Type {
    /// The source range of the type.
    pub open spec fn spec_range(self) -> TextRange {
        match self {
            Type::Pi { range, .. } => range,
            Type::Name(n) => n.range,
            Type::App { range, .. } => range,
            Type::Arrow { range, .. } => range,
            Type::Paren { range, .. } => range,
        }
    }

    /// The source range of the type.
    pub fn range(&self) -> (r: TextRange)
        ensures
            r == self.spec_range(),
    {
        match self {
            Type::Pi { range, .. } => *range,
            Type::Name(n) => n.range,
            Type::App { range, .. } => *range,
            Type::Arrow { range, .. } => *range,
            Type::Paren { range, .. } => *range,
        }
    }
}
} // verus!
