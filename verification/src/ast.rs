//! The abstract syntax consumed by the resolution pass.
//!
//! Every node carries a stable identity (`NodeId`) assigned by the
//! parser and a source span. The resolver never mutates the syntax
//! tree; it only walks it.

use vstd::prelude::*;

verus! {

/// A stable per-node identity assigned by the parser.
pub type NodeId = u32;

/// A source byte range. For callables and namespaces the span covers
/// the whole declaration; for blocks it includes the braces.
#[derive(Clone, Copy, Debug, PartialEq, Eq, Hash, Structural)]
pub struct Span {
    pub lo: u32,
    pub hi: u32,
}

/// A single identifier occurrence.
#[derive(Debug)]
pub struct Ident {
    pub id: NodeId,
    pub span: Span,
    pub name: String,
}

/// A possibly namespace-qualified name: `Foo.Bar.Baz` has namespace
/// `Foo.Bar` and name `Baz`; a bare `Foo` has no namespace.
#[derive(Debug)]
pub struct Path {
    pub id: NodeId,
    pub span: Span,
    pub namespace: Option<Vec<Ident>>,
    pub name: Ident,
}

/// A binding pattern.
#[derive(Debug)]
pub struct Pat {
    pub id: NodeId,
    pub span: Span,
    pub kind: PatKind,
}

#[derive(Debug)]
pub enum PatKind {
    /// Bind a name, optionally with a type annotation.
    Bind(Ident, Option<Ty>),
    /// `_`
    Discard,
    /// `...`
    Elided,
    /// A parenthesized pattern.
    Paren(Box<Pat>),
    /// A tuple of patterns.
    Tuple(Vec<Pat>),
    /// A pattern the parser could not produce.
    Invalid,
}

/// A type expression.
#[derive(Debug)]
pub struct Ty {
    pub id: NodeId,
    pub span: Span,
    pub kind: TyKind,
}

#[derive(Debug)]
pub enum TyKind {
    /// A named (possibly qualified) type.
    Path(Path),
    /// A type parameter.
    Param(Ident),
    /// A parenthesized type.
    Paren(Box<Ty>),
    /// A tuple type.
    Tuple(Vec<Ty>),
    /// An inferred type.
    Hole,
    /// A type the parser could not produce.
    Invalid,
}

/// An expression.
#[derive(Debug)]
pub struct Expr {
    pub id: NodeId,
    pub span: Span,
    pub kind: ExprKind,
}

#[derive(Debug)]
pub enum ExprKind {
    /// A (possibly qualified) name.
    Path(Path),
    /// `for` over an iterable: the pattern scope covers the block.
    For(Pat, Box<Expr>, Block),
    /// A lambda: the parameter scope covers the body.
    Lambda(Pat, Box<Expr>),
    /// The ternary copy-and-update expression `e1 w/ e2 <- e3`.
    Update(Box<Expr>, Box<Expr>, Box<Expr>),
    /// The update-assignment `set e1 w/= e2 <- e3`.
    AssignUpdate(Box<Expr>, Box<Expr>, Box<Expr>),
    /// A block expression.
    Block(Block),
    /// A call.
    Call(Box<Expr>, Box<Expr>),
    /// A parenthesized expression.
    Paren(Box<Expr>),
    /// A tuple.
    Tuple(Vec<Expr>),
    /// A literal; its value does not matter to resolution.
    Lit,
    /// An expression the parser could not produce.
    Invalid,
}

/// A sequence of statements between braces.
#[derive(Debug)]
pub struct Block {
    pub id: NodeId,
    pub span: Span,
    pub stmts: Vec<Stmt>,
}

/// A statement.
#[derive(Debug)]
pub struct Stmt {
    pub id: NodeId,
    pub span: Span,
    pub kind: StmtKind,
}

#[derive(Debug)]
pub enum StmtKind {
    /// A local item declaration.
    Item(Box<Item>),
    /// `let` / `mutable`: the binding is visible after the statement.
    Local(Pat, Expr),
    /// `use` / `borrow`: binds qubits, optionally scoped to a block.
    Qubit(Pat, Expr, Option<Block>),
    /// An expression statement.
    Expr(Expr),
    /// An expression statement with a trailing semicolon.
    Semi(Expr),
    /// An empty statement.
    Empty,
    /// A statement the parser could not produce.
    Invalid,
}

/// An attribute on an item, such as `@Config(...)`.
#[derive(Debug)]
pub struct Attr {
    pub id: NodeId,
    pub span: Span,
    pub name: Ident,
    pub arg: Expr,
}

/// A top-level or local item.
#[derive(Debug)]
pub struct Item {
    pub id: NodeId,
    pub span: Span,
    pub attrs: Vec<Attr>,
    pub kind: ItemKind,
}

#[derive(Debug)]
pub enum ItemKind {
    /// `open Foo.Bar;` or `open Foo.Bar as Baz;`
    Open(Vec<Ident>, Option<Ident>),
    /// A callable declaration.
    Callable(CallableDecl),
    /// A newtype declaration.
    Ty(Ident, TyDef),
    /// An item the parser could not produce.
    Invalid,
}

/// The underlying type of a newtype declaration.
#[derive(Debug)]
pub struct TyDef {
    pub id: NodeId,
    pub span: Span,
    pub kind: TyDefKind,
}

#[derive(Debug)]
pub enum TyDefKind {
    /// A field, optionally named.
    Field(Option<Ident>, Ty),
    /// A parenthesized definition.
    Paren(Box<TyDef>),
    /// A tuple of definitions.
    Tuple(Vec<TyDef>),
    /// A definition the parser could not produce.
    Invalid,
}

/// A callable (function or operation) declaration.
#[derive(Debug)]
pub struct CallableDecl {
    pub id: NodeId,
    pub span: Span,
    pub name: Ident,
    pub generics: Vec<Ident>,
    pub input: Pat,
    pub output: Ty,
    pub body: CallableBody,
}

#[derive(Debug)]
pub enum CallableBody {
    /// A single block body.
    Block(Block),
    /// Explicit specializations.
    Specs(Vec<SpecDecl>),
}

/// One specialization of a callable.
#[derive(Debug)]
pub struct SpecDecl {
    pub id: NodeId,
    pub span: Span,
    pub body: SpecBody,
}

#[derive(Debug)]
pub enum SpecBody {
    /// A generated specialization.
    Gen(SpecGen),
    /// An explicit implementation with its own input pattern.
    Impl(Pat, Block),
}

/// How a generated specialization is produced. `Intrinsic` marks a
/// callable implemented outside the program.
#[derive(Clone, Copy, Debug, PartialEq, Eq, Structural)]
pub enum SpecGen {
    Auto,
    Distribute,
    Intrinsic,
    Invert,
    Slf,
}

/// A namespace declaration and the items in it.
#[derive(Debug)]
pub struct Namespace {
    pub id: NodeId,
    pub span: Span,
    pub name: Vec<Ident>,
    pub items: Vec<Item>,
}

/// One node of a compilation unit: a namespace or a top-level statement.
#[derive(Debug)]
pub enum TopLevelNode {
    Namespace(Namespace),
    Stmt(Stmt),
}

/// A whole compilation unit.
#[derive(Debug)]
pub struct Package {
    pub id: NodeId,
    pub nodes: Vec<TopLevelNode>,
}

/// The views of the name segments of a qualifier.
pub open spec fn idents_view(p: Seq<Ident>) -> Seq<Seq<char>> {
    p.map_values(|i: Ident| i.name@)
}

} // verus!
