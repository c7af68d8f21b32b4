//! Parsing the text of a thread block, or of a lock's initial value, as a
//! Rust expression (with the `syn` crate), and the conversion of the syntax
//! tree into the expression model of `crate::ast`.
//!
//! `syn` only parses. The conversion is verified: it reads the tree one node
//! at a time through small accessors, each of which tells a group of `syn`
//! node kinds apart and hands out the node's parts, and `models_expr` states
//! what it yields for every kind of node.
use vstd::prelude::*;
use crate::ast::{MatchArm, ExprNode, StmtNode};

verus! {

#[verifier::external_type_specification]
#[verifier::external_body]
pub struct ExSynExpr(syn::Expr);

#[verifier::external_type_specification]
#[verifier::external_body]
pub struct ExSynStmt(syn::Stmt);

#[verifier::external_type_specification]
#[verifier::external_body]
pub struct ExSynPat(syn::Pat);

#[verifier::external_type_specification]
#[verifier::external_body]
pub struct ExSynArm(syn::Arm);

/// Whether `syn::parse_str::<syn::Expr>` accepts `text`.
pub uninterp spec fn syn_parses(text: Seq<char>) -> bool;

/// Whether `e` is a syntax tree that `syn::parse_str::<syn::Expr>` gives for
/// `text`. The tree carries the spans of its tokens, which depend on where
/// the parse runs, so a tree is related to its text rather than a function
/// of it.
pub uninterp spec fn is_parse_of(text: Seq<char>, e: syn::Expr) -> bool;

/// Parses `text` as a Rust expression (`syn::parse_str::<syn::Expr>`):
/// `Some` exactly when `syn` accepts the text, with a tree of the text.
#[verifier::external_body]
pub(crate) fn parse_syn(text: &str) -> (r: Option<syn::Expr>)
    ensures
        r is Some <==> syn_parses(text@),
        r matches Some(e) ==> is_parse_of(text@, e),
{
    syn::parse_str::<syn::Expr>(text).ok()
}

/// One level of a `syn::Expr`: its kind, with its parts. The kinds that the
/// expression model does not name are `Other`.
pub enum ExprShape {
    /// `syn::Expr::Block`: the statements of the block.
    Block(Seq<syn::Stmt>),
    /// `syn::Expr::If`: condition, statements of the then branch, else branch.
    If(syn::Expr, Seq<syn::Stmt>, Option<syn::Expr>),
    /// `syn::Expr::While`: condition and the statements of the body.
    While(syn::Expr, Seq<syn::Stmt>),
    /// `syn::Expr::Loop`: the statements of the body.
    Loop(Seq<syn::Stmt>),
    /// `syn::Expr::ForLoop`: pattern, iterated expression, statements of the body.
    ForLoop(syn::Pat, syn::Expr, Seq<syn::Stmt>),
    /// `syn::Expr::Match`: scrutinee and arms.
    Match(syn::Expr, Seq<syn::Arm>),
    /// `syn::Expr::MethodCall`: receiver and the method's identifier.
    MethodCall(syn::Expr, Seq<char>),
    /// `syn::Expr::Call`: callee and arguments.
    Call(syn::Expr, Seq<syn::Expr>),
    /// `syn::Expr::Closure`: parameter patterns and body.
    Closure(Seq<syn::Pat>, syn::Expr),
    /// `syn::Expr::Lit`.
    Lit,
    /// `syn::Expr::Macro`.
    Macro,
    /// `syn::Expr::Path`: the identifiers of the path's segments.
    Path(Seq<Seq<char>>),
    /// `syn::Expr::Paren`: the inner expression.
    Paren(syn::Expr),
    /// `syn::Expr::AssignOp`: left and right operands.
    AssignOp(syn::Expr, syn::Expr),
    /// `syn::Expr::Range`: the two ends, each possibly missing.
    Range(Option<syn::Expr>, Option<syn::Expr>),
    /// `syn::Expr::Reference`: the referenced expression.
    Reference(syn::Expr),
    /// `syn::Expr::Unary`: the operand.
    Unary(syn::Expr),
    /// `syn::Expr::Unsafe`.
    Unsafe,
    /// Every other kind of `syn::Expr`.
    Other,
}

/// The kind of a `syn::Expr` and its parts, as its fields hold them.
pub uninterp spec fn syn_expr_shape(e: syn::Expr) -> ExprShape;

/// One level of a `syn::Stmt`.
pub enum StmtShape {
    /// `syn::Stmt::Local`: the pattern and the initial value, if any.
    Local(syn::Pat, Option<syn::Expr>),
    /// `syn::Stmt::Item`.
    Item,
    /// `syn::Stmt::Expr`: an expression without a semicolon.
    Trailing(syn::Expr),
    /// `syn::Stmt::Semi`: an expression with a semicolon.
    Semi(syn::Expr),
}

/// The kind of a `syn::Stmt` and its parts.
pub uninterp spec fn syn_stmt_shape(s: syn::Stmt) -> StmtShape;

/// The pattern and the body of a `syn::Arm`.
pub uninterp spec fn syn_arm_parts(a: syn::Arm) -> (syn::Pat, syn::Expr);

/// One level of a `syn::Pat`, as far as the identifiers it binds go.
pub enum PatShape {
    /// `syn::Pat::Ident`: the identifier and the `@` subpattern, if any.
    Ident(Seq<char>, Option<syn::Pat>),
    /// The subpatterns of a tuple, tuple struct or struct pattern.
    Compound(Seq<syn::Pat>),
    /// The subpatterns of a slice or `|` pattern, or the one subpattern of a
    /// reference, `box` or typed pattern.
    Wrapped(Seq<syn::Pat>),
    /// Every other kind of `syn::Pat` (literal, path, range, rest, wildcard,
    /// macro, verbatim).
    Other,
}

/// The kind of a `syn::Pat` and its subpatterns.
pub uninterp spec fn syn_pat_shape(p: syn::Pat) -> PatShape;

/// The identifiers that the pattern `p` binds, in order, read `fuel` levels
/// deep: an identifier pattern binds its identifier and what its `@`
/// subpattern binds, a compound or wrapped pattern what its subpatterns
/// bind, every other pattern nothing.
pub open spec fn pat_bindings(p: syn::Pat, fuel: nat) -> Seq<Seq<char>>
    decreases fuel, 0int, 0int,
{
    if fuel == 0 {
        Seq::empty()
    } else {
        let f = (fuel - 1) as nat;
        match syn_pat_shape(p) {
            PatShape::Ident(name, sub) => seq![name] + match sub {
                Some(s) => pat_bindings(s, f),
                None => Seq::empty(),
            },
            PatShape::Compound(ps) => pats_bindings(ps, f, ps.len()),
            PatShape::Wrapped(ps) => pats_bindings(ps, f, ps.len()),
            PatShape::Other => Seq::empty(),
        }
    }
}

/// The identifiers that the first `k` patterns of `ps` bind, in order.
pub open spec fn pats_bindings(ps: Seq<syn::Pat>, fuel: nat, k: nat) -> Seq<Seq<char>>
    decreases fuel, 1int, k,
{
    if k == 0 || k > ps.len() {
        Seq::empty()
    } else {
        pats_bindings(ps, fuel, (k - 1) as nat) + pat_bindings(ps[k - 1], fuel)
    }
}

/// Whether `n` is the model of the expression `e`, read `fuel` levels deep:
/// each kind that the model names becomes its variant, with its parts
/// converted one level deeper, a path keeps the identifiers of all its
/// segments, and every other kind (and every part deeper than `fuel`)
/// becomes `Unsupported`.
pub open spec fn models_expr(n: ExprNode, e: syn::Expr, fuel: nat) -> bool
    decreases fuel, 0int, 0int,
{
    if fuel == 0 {
        n is Unsupported
    } else {
        let f = (fuel - 1) as nat;
        match syn_expr_shape(e) {
            ExprShape::Block(ss) => n matches ExprNode::Block { stmts } && models_stmts(
                stmts@,
                ss,
                f,
            ),
            ExprShape::If(c, t, el) => n matches ExprNode::If { cond, then_branch, else_branch }
                && models_expr(*cond, c, f) && models_stmts(then_branch@, t, f) && models_opt(
                else_branch,
                el,
                f,
            ),
            ExprShape::While(c, body) => n matches ExprNode::While { cond, body: nb }
                && models_expr(*cond, c, f) && models_stmts(nb@, body, f),
            ExprShape::Loop(body) => n matches ExprNode::Loop { body: nb } && models_stmts(
                nb@,
                body,
                f,
            ),
            ExprShape::ForLoop(p, it, body) => n matches ExprNode::ForLoop {
                bindings,
                iter,
                body: nb,
            } && bindings.deep_view() == pat_bindings(p, f) && models_expr(*iter, it, f)
                && models_stmts(nb@, body, f),
            ExprShape::Match(s, arms) => n matches ExprNode::Match { scrutinee, arms: na }
                && models_expr(*scrutinee, s, f) && models_arms(na@, arms, f),
            ExprShape::MethodCall(recv, m) => n matches ExprNode::MethodCall { receiver, method }
                && method@ == m && models_expr(*receiver, recv, f),
            ExprShape::Call(func, args) => n matches ExprNode::Call { func: nf, args: na }
                && models_expr(*nf, func, f) && models_exprs(na@, args, f),
            ExprShape::Closure(ps, body) => n matches ExprNode::Closure { params, closure_body }
                && params.deep_view() == pats_bindings(ps, f, ps.len()) && models_expr(
                *closure_body,
                body,
                f,
            ),
            ExprShape::Lit => n is Lit,
            ExprShape::Macro => n is Macro,
            ExprShape::Path(segs) => n matches ExprNode::Path { first, rest } && if segs.len()
                == 0 {
                first@ == Seq::<char>::empty() && rest@.len() == 0
            } else {
                first@ == segs[0] && rest.deep_view() == segs.drop_first()
            },
            ExprShape::Paren(x) => n matches ExprNode::Paren { inner } && models_expr(
                *inner,
                x,
                f,
            ),
            ExprShape::AssignOp(l, r) => n matches ExprNode::AssignOp { left, right }
                && models_expr(*left, l, f) && models_expr(*right, r, f),
            ExprShape::Range(fr, to) => n matches ExprNode::Range { from, to: nt } && models_opt(
                from,
                fr,
                f,
            ) && models_opt(nt, to, f),
            ExprShape::Reference(x) => n matches ExprNode::Reference { inner } && models_expr(
                *inner,
                x,
                f,
            ),
            ExprShape::Unary(x) => n matches ExprNode::Unary { inner } && models_expr(
                *inner,
                x,
                f,
            ),
            ExprShape::Unsafe => n is Unsafe,
            ExprShape::Other => n is Unsupported,
        }
    }
}

/// Whether `n` models the optional expression `e`.
pub open spec fn models_opt(n: Option<Box<ExprNode>>, e: Option<syn::Expr>, fuel: nat) -> bool
    decreases fuel, 1int, 0int,
{
    match (n, e) {
        (Some(x), Some(y)) => models_expr(*x, y, fuel),
        (None, None) => true,
        _ => false,
    }
}

/// Whether `ns` models the expressions `es`, one for one.
pub open spec fn models_exprs(ns: Seq<ExprNode>, es: Seq<syn::Expr>, fuel: nat) -> bool
    decreases fuel, 2int, ns.len(),
{
    if ns.len() != es.len() {
        false
    } else if ns.len() == 0 {
        true
    } else {
        models_exprs(ns.drop_last(), es.drop_last(), fuel) && models_expr(
            ns.last(),
            es.last(),
            fuel,
        )
    }
}

/// Whether `n` models the statement `s`: a `let` by the identifiers its
/// pattern binds and its initial value, an expression statement by its
/// expression.
pub open spec fn models_stmt(n: StmtNode, s: syn::Stmt, fuel: nat) -> bool
    decreases fuel, 1int, 0int,
{
    match syn_stmt_shape(s) {
        StmtShape::Local(p, init) => n matches StmtNode::Local { bindings, init: ni }
            && bindings.deep_view() == pat_bindings(p, fuel) && match (ni, init) {
            (Some(x), Some(y)) => models_expr(x, y, fuel),
            (None, None) => true,
            _ => false,
        },
        StmtShape::Item => n is Item,
        StmtShape::Trailing(x) => n matches StmtNode::Trailing { expr } && models_expr(
            expr,
            x,
            fuel,
        ),
        StmtShape::Semi(x) => n matches StmtNode::Semi { expr } && models_expr(expr, x, fuel),
    }
}

/// Whether `ns` models the statements `ss`, one for one.
pub open spec fn models_stmts(ns: Seq<StmtNode>, ss: Seq<syn::Stmt>, fuel: nat) -> bool
    decreases fuel, 2int, ns.len(),
{
    if ns.len() != ss.len() {
        false
    } else if ns.len() == 0 {
        true
    } else {
        models_stmts(ns.drop_last(), ss.drop_last(), fuel) && models_stmt(
            ns.last(),
            ss.last(),
            fuel,
        )
    }
}

/// Whether `n` models the arm `a`: the identifiers its pattern binds, and
/// its body.
pub open spec fn models_arm(n: MatchArm, a: syn::Arm, fuel: nat) -> bool
    decreases fuel, 1int, 0int,
{
    n.bindings.deep_view() == pat_bindings(syn_arm_parts(a).0, fuel) && models_expr(
        n.body,
        syn_arm_parts(a).1,
        fuel,
    )
}

/// Whether `ns` models the arms `arms`, one for one.
pub open spec fn models_arms(ns: Seq<MatchArm>, arms: Seq<syn::Arm>, fuel: nat) -> bool
    decreases fuel, 2int, ns.len(),
{
    if ns.len() != arms.len() {
        false
    } else if ns.len() == 0 {
        true
    } else {
        models_arms(ns.drop_last(), arms.drop_last(), fuel) && models_arm(
            ns.last(),
            arms.last(),
            fuel,
        )
    }
}

/// The values behind a sequence of references.
pub open spec fn derefs<T>(s: Seq<&T>) -> Seq<T> {
    s.map_values(|x: &T| *x)
}

/// A node of a `syn` expression, with references to its parts.
enum SynNode<'a> {
    Block(&'a Vec<syn::Stmt>),
    If(&'a syn::Expr, &'a Vec<syn::Stmt>, Option<&'a syn::Expr>),
    While(&'a syn::Expr, &'a Vec<syn::Stmt>),
    Loop(&'a Vec<syn::Stmt>),
    ForLoop(&'a syn::Pat, &'a syn::Expr, &'a Vec<syn::Stmt>),
    Match(&'a syn::Expr, Vec<&'a syn::Arm>),
    MethodCall(&'a syn::Expr, String),
    Call(&'a syn::Expr, Vec<&'a syn::Expr>),
    Closure(Vec<&'a syn::Pat>, &'a syn::Expr),
    Lit,
    Macro,
    Path(Vec<String>),
    Paren(&'a syn::Expr),
    AssignOp(&'a syn::Expr, &'a syn::Expr),
    Range(Option<&'a syn::Expr>, Option<&'a syn::Expr>),
    Reference(&'a syn::Expr),
    Unary(&'a syn::Expr),
    Unsafe,
}

/// The expression behind an optional reference.
spec fn opt_deref<T>(o: Option<&T>) -> Option<T> {
    match o {
        Some(x) => Some(*x),
        None => None,
    }
}

impl<'a> SynNode<'a> {
    /// The node as a shape.
    spec fn shape(self) -> ExprShape {
        match self {
            SynNode::Block(s) => ExprShape::Block(s@),
            SynNode::If(c, t, el) => ExprShape::If(*c, t@, opt_deref(el)),
            SynNode::While(c, b) => ExprShape::While(*c, b@),
            SynNode::Loop(b) => ExprShape::Loop(b@),
            SynNode::ForLoop(p, it, b) => ExprShape::ForLoop(*p, *it, b@),
            SynNode::Match(s, arms) => ExprShape::Match(*s, derefs(arms@)),
            SynNode::MethodCall(r, m) => ExprShape::MethodCall(*r, m@),
            SynNode::Call(func, args) => ExprShape::Call(*func, derefs(args@)),
            SynNode::Closure(ps, b) => ExprShape::Closure(derefs(ps@), *b),
            SynNode::Lit => ExprShape::Lit,
            SynNode::Macro => ExprShape::Macro,
            SynNode::Path(segs) => ExprShape::Path(segs.deep_view()),
            SynNode::Paren(x) => ExprShape::Paren(*x),
            SynNode::AssignOp(l, r) => ExprShape::AssignOp(*l, *r),
            SynNode::Range(fr, to) => ExprShape::Range(opt_deref(fr), opt_deref(to)),
            SynNode::Reference(x) => ExprShape::Reference(*x),
            SynNode::Unary(x) => ExprShape::Unary(*x),
            SynNode::Unsafe => ExprShape::Unsafe,
        }
    }
}

/// The kinds that `control_node` hands out.
spec fn control_kind(s: ExprShape) -> bool {
    s is Block || s is If || s is While || s is Loop || s is ForLoop
}

/// The kinds that `call_node` hands out.
spec fn call_kind(s: ExprShape) -> bool {
    s is MethodCall || s is Call || s is Closure || s is Match
}

/// The kinds that `leaf_node` hands out.
spec fn leaf_kind(s: ExprShape) -> bool {
    s is Lit || s is Macro || s is Path || s is Unsafe
}

/// The kinds that `operator_node` hands out.
spec fn operator_kind(s: ExprShape) -> bool {
    s is Paren || s is AssignOp || s is Range || s is Reference || s is Unary
}

/// The block, `if`, `while`, `loop` and `for` kinds of `syn::Expr`, with
/// their fields.
#[verifier::external_body]
fn control_node(e: &syn::Expr) -> (r: Option<SynNode<'_>>)
    ensures
        r is Some <==> control_kind(syn_expr_shape(*e)),
        r matches Some(n) ==> n.shape() == syn_expr_shape(*e),
{
    match e {
        syn::Expr::Block(b) => Some(SynNode::Block(&b.block.stmts)),
        syn::Expr::If(i) => Some(SynNode::If(&i.cond, &i.then_branch.stmts, i.else_branch.as_ref().map(|p| &*p.1))),
        syn::Expr::While(w) => Some(SynNode::While(&w.cond, &w.body.stmts)),
        syn::Expr::Loop(l) => Some(SynNode::Loop(&l.body.stmts)),
        syn::Expr::ForLoop(f) => Some(SynNode::ForLoop(&f.pat, &f.expr, &f.body.stmts)),
        _ => None,
    }
}

/// The method call, call, closure and `match` kinds of `syn::Expr`, with
/// their fields; a method by its identifier.
#[verifier::external_body]
fn call_node(e: &syn::Expr) -> (r: Option<SynNode<'_>>)
    ensures
        r is Some <==> call_kind(syn_expr_shape(*e)),
        r matches Some(n) ==> n.shape() == syn_expr_shape(*e),
{
    match e {
        syn::Expr::MethodCall(m) => Some(SynNode::MethodCall(&m.receiver, m.method.to_string())),
        syn::Expr::Call(c) => Some(SynNode::Call(&c.func, c.args.iter().collect())),
        syn::Expr::Closure(c) => Some(SynNode::Closure(c.inputs.iter().collect(), &c.body)),
        syn::Expr::Match(m) => Some(SynNode::Match(&m.expr, m.arms.iter().collect())),
        _ => None,
    }
}

/// The literal, macro, path and `unsafe` kinds of `syn::Expr`; a path by the
/// identifiers of its segments.
#[verifier::external_body]
fn leaf_node(e: &syn::Expr) -> (r: Option<SynNode<'_>>)
    ensures
        r is Some <==> leaf_kind(syn_expr_shape(*e)),
        r matches Some(n) ==> n.shape() == syn_expr_shape(*e),
{
    match e {
        syn::Expr::Lit(_) => Some(SynNode::Lit),
        syn::Expr::Macro(_) => Some(SynNode::Macro),
        syn::Expr::Path(p) => Some(SynNode::Path(p.path.segments.iter().map(|s| s.ident.to_string()).collect())),
        syn::Expr::Unsafe(_) => Some(SynNode::Unsafe),
        _ => None,
    }
}

/// The parenthesis, compound assignment, range, reference and unary kinds of
/// `syn::Expr`, with their fields.
#[verifier::external_body]
fn operator_node(e: &syn::Expr) -> (r: Option<SynNode<'_>>)
    ensures
        r is Some <==> operator_kind(syn_expr_shape(*e)),
        r matches Some(n) ==> n.shape() == syn_expr_shape(*e),
{
    match e {
        syn::Expr::Paren(p) => Some(SynNode::Paren(&p.expr)),
        syn::Expr::AssignOp(a) => Some(SynNode::AssignOp(&a.left, &a.right)),
        syn::Expr::Range(r) => Some(SynNode::Range(r.from.as_deref(), r.to.as_deref())),
        syn::Expr::Reference(r) => Some(SynNode::Reference(&r.expr)),
        syn::Expr::Unary(u) => Some(SynNode::Unary(&u.expr)),
        _ => None,
    }
}

/// A statement of a `syn` block, with references to its parts.
enum SynStmtNode<'a> {
    Local(&'a syn::Pat, Option<&'a syn::Expr>),
    Item,
    Trailing(&'a syn::Expr),
    Semi(&'a syn::Expr),
}

impl<'a> SynStmtNode<'a> {
    /// The statement as a shape.
    spec fn shape(self) -> StmtShape {
        match self {
            SynStmtNode::Local(p, init) => StmtShape::Local(*p, opt_deref(init)),
            SynStmtNode::Item => StmtShape::Item,
            SynStmtNode::Trailing(x) => StmtShape::Trailing(*x),
            SynStmtNode::Semi(x) => StmtShape::Semi(*x),
        }
    }
}

/// The kinds of `syn::Stmt`, with their fields.
#[verifier::external_body]
fn stmt_node(s: &syn::Stmt) -> (r: SynStmtNode<'_>)
    ensures
        r.shape() == syn_stmt_shape(*s),
{
    match s {
        syn::Stmt::Local(l) => SynStmtNode::Local(&l.pat, l.init.as_ref().map(|p| &*p.1)),
        syn::Stmt::Item(_) => SynStmtNode::Item,
        syn::Stmt::Expr(e) => SynStmtNode::Trailing(e),
        syn::Stmt::Semi(e, _) => SynStmtNode::Semi(e),
    }
}

/// The pattern and body of a `syn::Arm`.
#[verifier::external_body]
fn arm_parts(a: &syn::Arm) -> (r: (&syn::Pat, &syn::Expr))
    ensures
        (*r.0, *r.1) == syn_arm_parts(*a),
{
    (&a.pat, &a.body)
}

/// A `syn` pattern, with references to its parts.
enum SynPatNode<'a> {
    Ident(String, Option<&'a syn::Pat>),
    Compound(Vec<&'a syn::Pat>),
    Wrapped(Vec<&'a syn::Pat>),
}

impl<'a> SynPatNode<'a> {
    /// The pattern as a shape.
    spec fn shape(self) -> PatShape {
        match self {
            SynPatNode::Ident(name, sub) => PatShape::Ident(name@, opt_deref(sub)),
            SynPatNode::Compound(ps) => PatShape::Compound(derefs(ps@)),
            SynPatNode::Wrapped(ps) => PatShape::Wrapped(derefs(ps@)),
        }
    }
}

/// The identifier, tuple, tuple struct and struct kinds of `syn::Pat`, with
/// their fields.
#[verifier::external_body]
fn pat_node(p: &syn::Pat) -> (r: Option<SynPatNode<'_>>)
    ensures
        r is Some <==> (syn_pat_shape(*p) is Ident || syn_pat_shape(*p) is Compound),
        r matches Some(n) ==> n.shape() == syn_pat_shape(*p),
{
    match p {
        syn::Pat::Ident(i) => Some(SynPatNode::Ident(i.ident.to_string(), i.subpat.as_ref().map(|s| &*s.1))),
        syn::Pat::Tuple(t) => Some(SynPatNode::Compound(t.elems.iter().collect())),
        syn::Pat::TupleStruct(t) => Some(SynPatNode::Compound(t.pat.elems.iter().collect())),
        syn::Pat::Struct(s) => Some(SynPatNode::Compound(s.fields.iter().map(|f| &*f.pat).collect())),
        _ => None,
    }
}

/// The slice, `|`, reference, `box` and typed kinds of `syn::Pat`, with
/// their subpatterns.
#[verifier::external_body]
fn wrapped_pat_node(p: &syn::Pat) -> (r: Option<SynPatNode<'_>>)
    ensures
        r is Some <==> syn_pat_shape(*p) is Wrapped,
        r matches Some(n) ==> n.shape() == syn_pat_shape(*p),
{
    match p {
        syn::Pat::Slice(s) => Some(SynPatNode::Wrapped(s.elems.iter().collect())),
        syn::Pat::Or(o) => Some(SynPatNode::Wrapped(o.cases.iter().collect())),
        syn::Pat::Reference(r) => Some(SynPatNode::Wrapped(vec![&*r.pat])),
        syn::Pat::Box(b) => Some(SynPatNode::Wrapped(vec![&*b.pat])),
        syn::Pat::Type(t) => Some(SynPatNode::Wrapped(vec![&*t.pat])),
        _ => None,
    }
}

/// The identifiers a pattern binds, in order, read `fuel` levels deep.
pub fn bindings_of(p: &syn::Pat, fuel: usize) -> (r: Vec<String>)
    ensures
        r.deep_view() == pat_bindings(*p, fuel as nat),
    decreases fuel, 0int,
{
    let mut out: Vec<String> = Vec::new();
    if fuel == 0 {
        assert(out.deep_view() =~= Seq::<Seq<char>>::empty());
        return out;
    }
    let node = match pat_node(p) {
        Some(n) => n,
        None => match wrapped_pat_node(p) {
            Some(n) => n,
            None => {
                assert(out.deep_view() =~= Seq::<Seq<char>>::empty());
                return out;
            },
        },
    };
    match node {
        SynPatNode::Ident(name, sub) => {
            out.push(name);
            if let Some(s) = sub {
                let mut more = bindings_of(s, fuel - 1);
                let ghost before = out.deep_view();
                let ghost added = more.deep_view();
                out.append(&mut more);
                assert(out.deep_view() =~= before + added);
            } else {
                assert(out.deep_view() =~= seq![name@] + Seq::<Seq<char>>::empty());
            }
        },
        SynPatNode::Compound(parts) => {
            out = bindings_of_all(&parts, fuel - 1);
        },
        SynPatNode::Wrapped(parts) => {
            out = bindings_of_all(&parts, fuel - 1);
        },
    }
    out
}

/// The identifiers the patterns bind, in order, each read `fuel` levels deep.
fn bindings_of_all(ps: &Vec<&syn::Pat>, fuel: usize) -> (r: Vec<String>)
    ensures
        r.deep_view() == pats_bindings(derefs(ps@), fuel as nat, ps@.len()),
    decreases fuel, 1int,
{
    let ghost pv = derefs(ps@);
    let mut out: Vec<String> = Vec::new();
    assert(out.deep_view() =~= pats_bindings(pv, fuel as nat, 0));
    for i in 0..ps.len()
        invariant
            pv == derefs(ps@),
            out.deep_view() == pats_bindings(pv, fuel as nat, i as nat),
    {
        let mut more = bindings_of(ps[i], fuel);
        let ghost before = out.deep_view();
        let ghost added = more.deep_view();
        out.append(&mut more);
        assert(out.deep_view() =~= before + added);
        assert(pv[i as int] == *ps@[i as int]);
    }
    out
}

/// Converts the statements of a block, each read `fuel` levels deep.
pub fn model_of_stmts(stmts: &Vec<syn::Stmt>, fuel: usize) -> (r: Vec<StmtNode>)
    ensures
        models_stmts(r@, stmts@, fuel as nat),
    decreases fuel, 1int,
{
    let mut out: Vec<StmtNode> = Vec::new();
    assert(stmts@.take(0) =~= Seq::<syn::Stmt>::empty());
    for i in 0..stmts.len()
        invariant
            models_stmts(out@, stmts@.take(i as int), fuel as nat),
    {
        let s = match stmt_node(&stmts[i]) {
            SynStmtNode::Local(pat, init) => StmtNode::Local {
                bindings: bindings_of(pat, fuel),
                init: match init {
                    Some(e) => Some(model_of_expr(e, fuel)),
                    None => None,
                },
            },
            SynStmtNode::Item => StmtNode::Item,
            SynStmtNode::Trailing(e) => StmtNode::Trailing { expr: model_of_expr(e, fuel) },
            SynStmtNode::Semi(e) => StmtNode::Semi { expr: model_of_expr(e, fuel) },
        };
        assert(models_stmt(s, stmts@[i as int], fuel as nat));
        assert(stmts@.take(i + 1).last() == stmts@[i as int]);
        let ghost before = out@;
        out.push(s);
        assert(out@.drop_last() =~= before);
        assert(stmts@.take(i + 1).drop_last() =~= stmts@.take(i as int));
    }
    assert(stmts@.take(stmts@.len() as int) =~= stmts@);
    out
}

/// Converts a list of expressions, each read `fuel` levels deep.
fn model_of_exprs(es: &Vec<&syn::Expr>, fuel: usize) -> (r: Vec<ExprNode>)
    ensures
        models_exprs(r@, derefs(es@), fuel as nat),
    decreases fuel, 1int,
{
    let ghost ev = derefs(es@);
    let mut out: Vec<ExprNode> = Vec::new();
    assert(ev.take(0) =~= Seq::<syn::Expr>::empty());
    for i in 0..es.len()
        invariant
            ev == derefs(es@),
            models_exprs(out@, ev.take(i as int), fuel as nat),
    {
        let x = model_of_expr(es[i], fuel);
        let ghost before = out@;
        out.push(x);
        assert(out@.drop_last() =~= before);
        assert(ev.take(i + 1).drop_last() =~= ev.take(i as int));
    }
    assert(ev.take(ev.len() as int) =~= ev);
    out
}

/// Converts an optional expression, read `fuel` levels deep.
fn model_of_opt(e: Option<&syn::Expr>, fuel: usize) -> (r: Option<Box<ExprNode>>)
    ensures
        models_opt(r, opt_deref(e), fuel as nat),
    decreases fuel, 1int,
{
    match e {
        Some(x) => Some(Box::new(model_of_expr(x, fuel))),
        None => None,
    }
}

/// Converts the arms of a `match`, each read `fuel` levels deep.
fn model_of_arms(arms: &Vec<&syn::Arm>, fuel: usize) -> (r: Vec<MatchArm>)
    ensures
        models_arms(r@, derefs(arms@), fuel as nat),
    decreases fuel, 1int,
{
    let ghost av = derefs(arms@);
    let mut out: Vec<MatchArm> = Vec::new();
    assert(av.take(0) =~= Seq::<syn::Arm>::empty());
    for i in 0..arms.len()
        invariant
            av == derefs(arms@),
            models_arms(out@, av.take(i as int), fuel as nat),
    {
        let (pat, body) = arm_parts(arms[i]);
        let a = MatchArm { bindings: bindings_of(pat, fuel), body: model_of_expr(body, fuel) };
        assert(av[i as int] == *arms@[i as int]);
        assert(models_arm(a, av[i as int], fuel as nat));
        assert(av.take(i + 1).last() == av[i as int]);
        let ghost before = out@;
        out.push(a);
        assert(out@.drop_last() =~= before);
        assert(av.take(i + 1).drop_last() =~= av.take(i as int));
    }
    assert(av.take(av.len() as int) =~= av);
    out
}

/// Converts a `syn` expression into the model, node by node, as
/// `models_expr` states; `fuel` bounds the depth that is read (it is
/// `usize::MAX` when a whole text is converted).
#[verifier::rlimit(40)]
pub fn model_of_expr(e: &syn::Expr, fuel: usize) -> (r: ExprNode)
    ensures
        models_expr(r, *e, fuel as nat),
    decreases fuel, 0int,
{
    if fuel == 0 {
        return ExprNode::Unsupported;
    }
    let f = fuel - 1;
    let node = match control_node(e) {
        Some(n) => n,
        None => match call_node(e) {
            Some(n) => n,
            None => match leaf_node(e) {
                Some(n) => n,
                None => match operator_node(e) {
                    Some(n) => n,
                    None => {
                        return ExprNode::Unsupported;
                    },
                },
            },
        },
    };
    match node {
        SynNode::Block(stmts) => ExprNode::Block { stmts: model_of_stmts(stmts, f) },
        SynNode::If(c, t, el) => ExprNode::If {
            cond: Box::new(model_of_expr(c, f)),
            then_branch: model_of_stmts(t, f),
            else_branch: model_of_opt(el, f),
        },
        SynNode::While(c, body) => ExprNode::While {
            cond: Box::new(model_of_expr(c, f)),
            body: model_of_stmts(body, f),
        },
        SynNode::Loop(body) => ExprNode::Loop { body: model_of_stmts(body, f) },
        SynNode::ForLoop(pat, it, body) => ExprNode::ForLoop {
            bindings: bindings_of(pat, f),
            iter: Box::new(model_of_expr(it, f)),
            body: model_of_stmts(body, f),
        },
        SynNode::Match(scrutinee, arms) => ExprNode::Match {
            scrutinee: Box::new(model_of_expr(scrutinee, f)),
            arms: model_of_arms(&arms, f),
        },
        SynNode::MethodCall(receiver, method) => ExprNode::MethodCall {
            receiver: Box::new(model_of_expr(receiver, f)),
            method,
        },
        SynNode::Call(func, args) => ExprNode::Call {
            func: Box::new(model_of_expr(func, f)),
            args: model_of_exprs(&args, f),
        },
        SynNode::Closure(params, body) => ExprNode::Closure {
            params: bindings_of_all(&params, f),
            closure_body: Box::new(model_of_expr(body, f)),
        },
        SynNode::Lit => ExprNode::Lit,
        SynNode::Macro => ExprNode::Macro,
        SynNode::Path(segments) => {
            let ghost segs = segments.deep_view();
            let mut rest = segments;
            if rest.len() == 0 {
                ExprNode::Path { first: String::new(), rest }
            } else {
                let first = rest.remove(0);
                assert(rest.deep_view() =~= segs.drop_first());
                ExprNode::Path { first, rest }
            }
        },
        SynNode::Paren(x) => ExprNode::Paren { inner: Box::new(model_of_expr(x, f)) },
        SynNode::AssignOp(l, r) => ExprNode::AssignOp {
            left: Box::new(model_of_expr(l, f)),
            right: Box::new(model_of_expr(r, f)),
        },
        SynNode::Range(from, to) => ExprNode::Range {
            from: model_of_opt(from, f),
            to: model_of_opt(to, f),
        },
        SynNode::Reference(x) => ExprNode::Reference { inner: Box::new(model_of_expr(x, f)) },
        SynNode::Unary(x) => ExprNode::Unary { inner: Box::new(model_of_expr(x, f)) },
        SynNode::Unsafe => ExprNode::Unsafe,
    }
}

} // verus!
