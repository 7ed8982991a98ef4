//! The library's model of a parsed GLSL source file.
//!
//! The uniform analysis only looks at a small part of the syntax: top-level
//! declarations with their qualifiers, names, type names and array
//! dimensions, and the statement and expression forms in which an identifier
//! can appear inside a function body.  These types hold exactly that much.
//! An external GLSL parser produces the real syntax tree; the boundary code
//! around the library converts it into this model, node for node, before the
//! verified analysis runs.

use vstd::prelude::*;

verus! {

/// One qualifier of a declaration.  Only the storage qualifier `uniform`
/// matters to the analysis; every other qualifier is kept as `Other`.
#[derive(Clone, Copy, Debug, PartialEq, Eq, Structural)]
pub enum Qualifier {
    Uniform,
    Other,
}

/// An expression, restricted to the forms the usage walk distinguishes.
/// Literals and other leaf forms without identifiers are `Other`.
pub enum Expr {
    /// An identifier.
    Variable(String),
    Unary(Box<Expr>),
    Binary(Box<Expr>, Box<Expr>),
    /// Condition, then-value, else-value.
    Ternary(Box<Expr>, Box<Expr>, Box<Expr>),
    /// Target, value.  The operator does not matter to the walk.
    Assignment(Box<Expr>, Box<Expr>),
    /// Array access: array, index.
    Bracket(Box<Expr>, Box<Expr>),
    /// A call; only the arguments are walked, not the callee name.
    FunCall(Vec<Expr>),
    /// Member access; the member name is not an identifier use.
    Dot(Box<Expr>),
    PostInc(Box<Expr>),
    PostDec(Box<Expr>),
    Comma(Box<Expr>, Box<Expr>),
    /// A literal or any other leaf without identifiers.
    Other,
}

/// An initializer of a declared variable.
pub enum Initializer {
    Simple(Expr),
    List(Vec<Initializer>),
}

/// The condition of a `while` or `for` loop.  A declaration-style
/// assignment condition is kept as its own form: the analysis does not
/// support it and fails fast on it.
pub enum Condition {
    Expr(Expr),
    Assignment,
}

/// The first part of a `for` header.  Only a plain expression is walked; a
/// declaration there contributes nothing to the usage set.
pub enum ForInit {
    Expression(Option<Expr>),
    Declaration,
}

/// The branch part of an `if` statement.
pub enum SelectionRest {
    /// `if` without `else`.
    Statement(Box<Stmt>),
    /// `if` with `else`: then-branch, else-branch.
    Else(Box<Stmt>, Box<Stmt>),
}

/// A statement, restricted to the forms the usage walk distinguishes.
pub enum Stmt {
    /// A local declaration: the initializers of its declarators, in order.
    /// The declared names themselves are not identifier uses.
    Declaration(Vec<Initializer>),
    /// An expression statement, possibly empty (`;`).
    Expression(Option<Expr>),
    /// An `if`: condition and branches.
    Selection(Expr, SelectionRest),
    /// A `switch`: head expression and body statements.
    Switch(Expr, Vec<Stmt>),
    /// A `case` label with its expression, or `None` for `default`.
    CaseLabel(Option<Expr>),
    While(Condition, Box<Stmt>),
    DoWhile(Box<Stmt>, Expr),
    /// A `for`: init, condition, post-expression, body.
    For(ForInit, Option<Condition>, Option<Expr>, Box<Stmt>),
    /// A jump: `return e` carries its expression; `return;`, `break`,
    /// `continue` and `discard` carry none.
    Jump(Option<Expr>),
    Compound(Vec<Stmt>),
}

/// A top-level declaration of a variable (the head of an init-declarator
/// list).
pub struct VarDecl {
    /// The declaration's qualifiers, in source order.
    pub qualifiers: Vec<Qualifier>,
    /// The declared name, absent for a nameless declaration.
    pub name: Option<String>,
    /// The GLSL name of the declared type (`"mat4"`, `"sampler2D"`, ...).
    pub ty_name: String,
    /// The first array dimension when it is an explicit integer constant.
    pub array_size: Option<u32>,
}

/// A function definition: only its body statements matter.
pub struct FunctionDef {
    pub body: Vec<Stmt>,
}

/// One top-level item of a source file.
pub enum ExternalDecl {
    Variable(VarDecl),
    Function(FunctionDef),
    /// Anything else (precision statements, blocks, ...): skipped.
    Other,
}

/// A whole parsed source file.
pub struct TranslationUnit {
    pub decls: Vec<ExternalDecl>,
}

} // verus!
