//! The part of a Rust expression tree that the lock analysis reads.
//!
//! A thread block of the `threads!` DSL is parsed as a Rust expression; this
//! module holds, as plain values, every piece of that expression the analysis
//! looks at: the kind of each node, its sub-expressions, method names, the
//! segments of paths and the identifiers that patterns bind. Every other kind
//! of expression is `Unsupported`.
use vstd::prelude::*;

verus! {

/// A Rust expression, as far as the lock analysis distinguishes it.
#[derive(Debug)]
pub enum ExprNode {
    /// `{ stmts }`
    Block { stmts: Vec<StmtNode> },
    /// `if cond { then_branch } else else_branch`
    If { cond: Box<ExprNode>, then_branch: Vec<StmtNode>, else_branch: Option<Box<ExprNode>> },
    /// `receiver.method(..)`; the arguments are not looked at.
    MethodCall { receiver: Box<ExprNode>, method: String },
    /// `while cond { body }`
    While { cond: Box<ExprNode>, body: Vec<StmtNode> },
    /// `loop { body }`
    Loop { body: Vec<StmtNode> },
    /// `for pat in iter { body }`; `bindings` are the identifiers `pat` binds.
    ForLoop { bindings: Vec<String>, iter: Box<ExprNode>, body: Vec<StmtNode> },
    /// `func(args..)`
    Call { func: Box<ExprNode>, args: Vec<ExprNode> },
    /// `match scrutinee { arms.. }`
    Match { scrutinee: Box<ExprNode>, arms: Vec<MatchArm> },
    /// `|params..| closure_body`; `params` are the identifiers the parameters bind.
    Closure { params: Vec<String>, closure_body: Box<ExprNode> },
    /// A literal.
    Lit,
    /// A macro invocation such as `println!(..)`; its tokens are not looked at.
    Macro,
    /// `(inner)`
    Paren { inner: Box<ExprNode> },
    /// `left op= right`
    AssignOp { left: Box<ExprNode>, right: Box<ExprNode> },
    /// `from..to`, either end possibly missing.
    Range { from: Option<Box<ExprNode>>, to: Option<Box<ExprNode>> },
    /// A path `first::rest..`, by the identifiers of its segments.
    Path { first: String, rest: Vec<String> },
    /// `&inner` or `&mut inner`
    Reference { inner: Box<ExprNode> },
    /// `*inner`, `!inner` or `-inner`
    Unary { inner: Box<ExprNode> },
    /// An `unsafe` block.
    Unsafe,
    /// Any other kind of expression.
    Unsupported,
}

/// One arm of a `match`: the identifiers its pattern binds, and its body.
#[derive(Debug)]
pub struct MatchArm {
    pub bindings: Vec<String>,
    pub body: ExprNode,
}

/// A statement of a block.
#[derive(Debug)]
pub enum StmtNode {
    /// `let pat = init;` or `let pat;`; `bindings` are the identifiers `pat` binds.
    Local { bindings: Vec<String>, init: Option<ExprNode> },
    /// An item (a function, a struct, ...) declared in the block.
    Item,
    /// An expression without a trailing semicolon.
    Trailing { expr: ExprNode },
    /// An expression followed by a semicolon.
    Semi { expr: ExprNode },
}

} // verus!
