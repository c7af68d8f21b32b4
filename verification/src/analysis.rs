//! Extraction of lock orderings from a thread block, and the syntactic
//! restrictions of the DSL.
//!
//! Walking an expression yields the list of orderings in which its paths may
//! acquire the declared locks. Sequential code combines orderings
//! multiplicatively (see `extend_orderings`), alternatives (the branches of an
//! `if`, the arms of a `match`) are listed side by side. The walk keeps track
//! of the identifiers that `let` statements and other patterns bind, and
//! rejects what the DSL forbids: `unsafe` blocks, calling `Arc::clone`, creating a mutex,
//! calling through a path that is not a function (a callee that is not a
//! path, or a locally bound identifier), acquiring anything but a declared
//! lock, binding a declared lock to a new identifier, passing more than one
//! lock reference to a function, and expressions it does not support.
use vstd::prelude::*;
use vstd::string::*;
use crate::ast::{MatchArm, ExprNode, StmtNode};
use crate::orderings::{
    LockName, LockSeqs, extend_spec, extend_orderings, clone_ordering, append_ordering, within,
    lemma_within_extend,
};

verus! {

/// Why a thread block is refused.
#[derive(Debug, PartialEq, Eq)]
pub enum LockError {
    /// A call of `Arc::clone` (under any path prefix) was found.
    ArcCloneCall,
    /// A call of `Mutex::new` (under any path prefix) was found.
    NewMutex,
    /// A call whose callee is not a path, or is a locally bound identifier, was found.
    IndirectCall,
    /// More than one lock reference may reach the arguments of one call.
    MultipleLockArguments,
    /// `.lock()` was called on something other than a declared lock.
    UndeclaredLock,
    /// A declared lock was bound to a new identifier by `let`.
    LockBinding,
    /// An `unsafe` block was found.
    UnsafeBlock,
    /// An expression of a kind the DSL does not support was found.
    UnsupportedExpression,
}

/// The method name whose calls acquire a lock.
pub open spec fn lock_method() -> Seq<char> {
    seq!['l', 'o', 'c', 'k']
}

/// The type name `Arc`.
pub open spec fn arc_segment() -> Seq<char> {
    seq!['A', 'r', 'c']
}

/// The method name `clone`.
pub open spec fn clone_segment() -> Seq<char> {
    seq!['c', 'l', 'o', 'n', 'e']
}

/// The type name `Mutex`.
pub open spec fn mutex_segment() -> Seq<char> {
    seq!['M', 'u', 't', 'e', 'x']
}

/// The function name `new`.
pub open spec fn new_segment() -> Seq<char> {
    seq!['n', 'e', 'w']
}

/// Whether `name` names a declared lock that no local binding in `bound`
/// shadows.
pub open spec fn is_lock(name: LockName, locks: Seq<LockName>, bound: Seq<LockName>) -> bool {
    locks.contains(name) && !bound.contains(name)
}

/// The lock a `.lock()` call on `receiver` acquires: the first segment of a
/// path receiver, when that names a declared lock.
pub open spec fn lock_target(receiver: ExprNode, locks: Seq<LockName>, bound: Seq<LockName>) -> Option<
    LockName,
> {
    match receiver {
        ExprNode::Path { first, rest } => if is_lock(first@, locks, bound) {
            Some(first@)
        } else {
            None
        },
        _ => None,
    }
}

/// Whether `e` is a declared lock itself: its name, possibly borrowed or in
/// parentheses.
pub open spec fn lock_ref(e: ExprNode, locks: Seq<LockName>, bound: Seq<LockName>) -> bool
    decreases e,
{
    match e {
        ExprNode::Path { first, rest } => rest.len() == 0 && is_lock(first@, locks, bound),
        ExprNode::Reference { inner } => lock_ref(*inner, locks, bound),
        ExprNode::Paren { inner } => lock_ref(*inner, locks, bound),
        _ => false,
    }
}

/// The identifiers of the segments of a path.
pub open spec fn path_segments(first: String, rest: Vec<String>) -> Seq<LockName> {
    seq![first@] + rest.deep_view()
}

/// Whether two adjacent segments read `x` then `y`.
pub open spec fn has_adjacent(segs: Seq<LockName>, x: Seq<char>, y: Seq<char>) -> bool {
    exists|i: int| 0 <= i < segs.len() - 1 && #[trigger] segs[i] == x && segs[i + 1] == y
}

/// Why a call of the path `first::rest..` is refused, if it is.
pub open spec fn call_refusal(first: String, rest: Vec<String>, bound: Seq<LockName>) -> Option<
    LockError,
> {
    let segs = path_segments(first, rest);
    if has_adjacent(segs, arc_segment(), clone_segment()) {
        Some(LockError::ArcCloneCall)
    } else if has_adjacent(segs, mutex_segment(), new_segment()) {
        Some(LockError::NewMutex)
    } else if rest.len() == 0 && bound.contains(first@) {
        Some(LockError::IndirectCall)
    } else {
        None
    }
}

/// Prepends `ord` to a successful result.
pub open spec fn prefixed(
    ord: LockSeqs,
    r: Result<LockSeqs, LockError>,
) -> Result<LockSeqs, LockError> {
    match r {
        Ok(v) => Ok(ord + v),
        Err(e) => Err(e),
    }
}

/// The orderings of an optional expression: none when it is missing.
pub open spec fn walk_opt(
    e: Option<Box<ExprNode>>,
    locks: Seq<LockName>,
    bound: Seq<LockName>,
    ord: LockSeqs,
) -> Result<LockSeqs, LockError>
    decreases e, 1int,
{
    match e {
        Some(x) => walk(*x, locks, bound, ord),
        None => Ok(Seq::empty()),
    }
}

/// The orderings of expression `e`, with `ord` in front, or why `e` is
/// refused. `locks` are the declared lock names; `bound` are the identifiers
/// bound by enclosing patterns, which shadow declared locks.
pub open spec fn walk(e: ExprNode, locks: Seq<LockName>, bound: Seq<LockName>, ord: LockSeqs) -> Result<
    LockSeqs,
    LockError,
>
    decreases e, 0int,
{
    prefixed(
        ord,
        match e {
            ExprNode::Block { stmts } => walk_stmts(stmts, stmts.len() as int, locks, bound, ord),
            ExprNode::If { cond, then_branch, else_branch } => match walk(*cond, locks, bound, ord) {
                Err(x) => Err(x),
                Ok(r1) => match walk_stmts(then_branch, then_branch.len() as int, locks, bound, ord) {
                    Err(x) => Err(x),
                    Ok(r2) => match walk_opt(else_branch, locks, bound, ord) {
                        Err(x) => Err(x),
                        Ok(r3) => Ok((r1 + r2) + (r1 + r3)),
                    },
                },
            },
            ExprNode::MethodCall { receiver, method } => match walk(*receiver, locks, bound, ord) {
                Err(x) => Err(x),
                Ok(r1) => if method@ == lock_method() {
                    match lock_target(*receiver, locks, bound) {
                        Some(n) => Ok(r1.push(seq![n])),
                        None => Err(LockError::UndeclaredLock),
                    }
                } else {
                    Ok(r1)
                },
            },
            ExprNode::While { cond, body } => match walk(*cond, locks, bound, ord) {
                Err(x) => Err(x),
                Ok(r1) => match walk_stmts(body, body.len() as int, locks, bound, ord) {
                    Err(x) => Err(x),
                    Ok(r2) => Ok(r1 + r2),
                },
            },
            ExprNode::Loop { body } => walk_stmts(body, body.len() as int, locks, bound, ord),
            ExprNode::ForLoop { bindings, iter, body } => match walk(*iter, locks, bound, ord) {
                Err(x) => Err(x),
                Ok(r1) => match walk_stmts(
                    body,
                    body.len() as int,
                    locks,
                    bound + bindings.deep_view(),
                    ord,
                ) {
                    Err(x) => Err(x),
                    Ok(r2) => Ok(r1 + r2),
                },
            },
            ExprNode::Call { func, args } => match *func {
                ExprNode::Path { first, rest } => match call_refusal(first, rest, bound) {
                    Some(x) => Err(x),
                    None => match walk_args(args, args.len() as int, locks, bound, ord) {
                        Err(x) => Err(x),
                        Ok((lst, ctr)) => if ctr > 1 {
                            Err(LockError::MultipleLockArguments)
                        } else {
                            match walk(*func, locks, bound, ord) {
                                Err(x) => Err(x),
                                Ok(r1) => Ok(r1 + lst),
                            }
                        },
                    },
                },
                _ => Err(LockError::IndirectCall),
            },
            ExprNode::Match { scrutinee, arms } => match walk(*scrutinee, locks, bound, ord) {
                Err(x) => Err(x),
                Ok(r1) => match walk_arms(arms, arms.len() as int, locks, bound, ord) {
                    Err(x) => Err(x),
                    Ok(lst) => Ok(extend_spec(r1, lst)),
                },
            },
            ExprNode::Closure { params, closure_body } => walk(
                *closure_body,
                locks,
                bound + params.deep_view(),
                ord,
            ),
            ExprNode::Lit => Ok(Seq::empty()),
            ExprNode::Macro => Ok(Seq::empty()),
            ExprNode::Paren { inner } => walk(*inner, locks, bound, ord),
            ExprNode::AssignOp { left, right } => match walk(*right, locks, bound, ord) {
                Err(x) => Err(x),
                Ok(r) => match walk(*left, locks, bound, ord) {
                    Err(x) => Err(x),
                    Ok(l) => Ok(r + l),
                },
            },
            ExprNode::Unsafe => Err(LockError::UnsafeBlock),
            ExprNode::Range { from, to } => match walk_opt(from, locks, bound, ord) {
                Err(x) => Err(x),
                Ok(rf) => match walk_opt(to, locks, bound, ord) {
                    Err(x) => Err(x),
                    Ok(rt) => Ok(rf + rt),
                },
            },
            ExprNode::Path { first, rest } => Ok(Seq::empty()),
            ExprNode::Reference { inner } => walk(*inner, locks, bound, ord),
            ExprNode::Unary { inner } => walk(*inner, locks, bound, ord),
            ExprNode::Unsupported => Err(LockError::UnsupportedExpression),
        },
    )
}

/// The identifiers the `let` statements among the first `n` statements bind.
pub open spec fn let_bindings(stmts: Vec<StmtNode>, n: int) -> Seq<LockName>
    decreases n,
{
    if n <= 0 || n > stmts.len() {
        Seq::empty()
    } else {
        let_bindings(stmts, n - 1) + match stmts@[n - 1] {
            StmtNode::Local { bindings, init } => bindings.deep_view(),
            _ => Seq::empty(),
        }
    }
}

/// The orderings of one statement, walked with the identifiers `env` bound,
/// or why it is refused.
pub open spec fn walk_stmt(s: StmtNode, locks: Seq<LockName>, env: Seq<LockName>, in_lst: LockSeqs) -> Result<
    LockSeqs,
    LockError,
>
    decreases s, 0int,
{
    match s {
        StmtNode::Local { bindings, init } => match init {
            Some(e) => if lock_ref(e, locks, env) {
                Err(LockError::LockBinding)
            } else {
                walk(e, locks, env, in_lst)
            },
            None => Ok(Seq::empty()),
        },
        StmtNode::Item => Ok(Seq::empty()),
        StmtNode::Trailing { expr } => walk(expr, locks, env, in_lst),
        StmtNode::Semi { expr } => walk(expr, locks, env, in_lst),
    }
}

/// The orderings of the first `n` statements of `stmts`, each walked with
/// `in_lst` in front and with the identifiers bound before it, combined
/// multiplicatively, starting from `in_lst`.
pub open spec fn walk_stmts(
    stmts: Vec<StmtNode>,
    n: int,
    locks: Seq<LockName>,
    bound: Seq<LockName>,
    in_lst: LockSeqs,
) -> Result<LockSeqs, LockError>
    decreases stmts, n,
{
    if n <= 0 || n > stmts.len() {
        Ok(in_lst)
    } else {
        match walk_stmts(stmts, n - 1, locks, bound, in_lst) {
            Err(x) => Err(x),
            Ok(prev) => match walk_stmt(
                stmts@[n - 1],
                locks,
                bound + let_bindings(stmts, n - 1),
                in_lst,
            ) {
                Err(x) => Err(x),
                Ok(o) => Ok(extend_spec(prev, o)),
            },
        }
    }
}

/// The orderings of the first `n` call arguments side by side, with the
/// number of arguments that carry a lock reference (yield an ordering or are
/// a declared lock themselves); refused as soon as one argument yields more
/// than one ordering.
pub open spec fn walk_args(
    args: Vec<ExprNode>,
    n: int,
    locks: Seq<LockName>,
    bound: Seq<LockName>,
    ord: LockSeqs,
) -> Result<(LockSeqs, nat), LockError>
    decreases args, n,
{
    if n <= 0 || n > args.len() {
        Ok((Seq::empty(), 0nat))
    } else {
        match walk_args(args, n - 1, locks, bound, ord) {
            Err(x) => Err(x),
            Ok((lst, ctr)) => match walk(args@[n - 1], locks, bound, ord) {
                Err(x) => Err(x),
                Ok(r) => if r.len() > 1 {
                    Err(LockError::MultipleLockArguments)
                } else {
                    Ok(
                        (
                            lst + r,
                            if r.len() > 0 || lock_ref(args@[n - 1], locks, bound) {
                                ctr + 1
                            } else {
                                ctr
                            },
                        ),
                    )
                },
            },
        }
    }
}

/// The orderings of the first `n` match arms side by side, each arm walked
/// with the identifiers its pattern binds.
pub open spec fn walk_arms(
    arms: Vec<MatchArm>,
    n: int,
    locks: Seq<LockName>,
    bound: Seq<LockName>,
    ord: LockSeqs,
) -> Result<LockSeqs, LockError>
    decreases arms, n,
{
    if n <= 0 || n > arms.len() {
        Ok(Seq::empty())
    } else {
        match walk_arms(arms, n - 1, locks, bound, ord) {
            Err(x) => Err(x),
            Ok(lst) => match walk(
                arms@[n - 1].body,
                locks,
                bound + arms@[n - 1].bindings.deep_view(),
                ord,
            ) {
                Err(x) => Err(x),
                Ok(r) => Ok(lst + r),
            },
        }
    }
}

/// The value of an exec result of the walk.
pub open spec fn result_view(r: Result<Vec<Vec<String>>, LockError>) -> Result<
    LockSeqs,
    LockError,
> {
    match r {
        Ok(v) => Ok(v.deep_view()),
        Err(e) => Err(e),
    }
}

/// Walking an expression keeps the orderings in front of its result.
pub proof fn lemma_walk_keeps_prefix(e: ExprNode, locks: Seq<LockName>, bound: Seq<LockName>, ord: LockSeqs)
    ensures
        walk(e, locks, bound, ord) matches Ok(v) ==> v.len() >= ord.len() && v.take(ord.len() as int)
            == ord,
{
    if let Ok(v) = walk(e, locks, bound, ord) {
        assert(v.take(ord.len() as int) =~= ord);
    }
}

proof fn lemma_opt_within(e: Option<Box<ExprNode>>, locks: Seq<LockName>, bound: Seq<LockName>, ord: LockSeqs)
    requires
        within(ord, locks),
    ensures
        walk_opt(e, locks, bound, ord) matches Ok(v) ==> within(v, locks),
    decreases e, 1int,
{
    match e {
        Some(x) => lemma_walk_within(*x, locks, bound, ord),
        None => {
            assert(within(Seq::<Seq<LockName>>::empty(), locks));
        },
    }
}

/// Only declared locks are recorded: when the orderings in front name
/// declared locks only, so do the orderings of the whole walk.
pub proof fn lemma_walk_within(e: ExprNode, locks: Seq<LockName>, bound: Seq<LockName>, ord: LockSeqs)
    requires
        within(ord, locks),
    ensures
        walk(e, locks, bound, ord) matches Ok(v) ==> within(v, locks),
    decreases e, 0int,
{
    let empty = Seq::<Seq<LockName>>::empty();
    assert(within(empty, locks));
    match e {
        ExprNode::Block { stmts } => {
            lemma_stmts_within(stmts, stmts.len() as int, locks, bound, ord);
        },
        ExprNode::If { cond, then_branch, else_branch } => {
            lemma_walk_within(*cond, locks, bound, ord);
            lemma_stmts_within(then_branch, then_branch.len() as int, locks, bound, ord);
            lemma_opt_within(else_branch, locks, bound, ord);
            if let (Ok(r1), Ok(r2), Ok(r3)) = (
                walk(*cond, locks, bound, ord),
                walk_stmts(then_branch, then_branch.len() as int, locks, bound, ord),
                walk_opt(else_branch, locks, bound, ord),
            ) {
                lemma_within_extend(r1, r2, locks);
                lemma_within_extend(r1, r3, locks);
                lemma_within_extend(r1 + r2, r1 + r3, locks);
            }
        },
        ExprNode::MethodCall { receiver, method } => {
            lemma_walk_within(*receiver, locks, bound, ord);
            if let (Ok(r1), Some(n)) = (walk(*receiver, locks, bound, ord), lock_target(*receiver, locks, bound)) {
                let one = seq![seq![n]];
                assert(within(one, locks));
                lemma_within_extend(r1, one, locks);
                assert(r1.push(seq![n]) =~= r1 + one);
            }
        },
        ExprNode::While { cond, body } => {
            lemma_walk_within(*cond, locks, bound, ord);
            lemma_stmts_within(body, body.len() as int, locks, bound, ord);
            if let (Ok(r1), Ok(r2)) = (walk(*cond, locks, bound, ord), walk_stmts(body, body.len() as int, locks, bound, ord)) {
                lemma_within_extend(r1, r2, locks);
            }
        },
        ExprNode::Loop { body } => {
            lemma_stmts_within(body, body.len() as int, locks, bound, ord);
        },
        ExprNode::ForLoop { bindings, iter, body } => {
            let env = bound + bindings.deep_view();
            lemma_walk_within(*iter, locks, bound, ord);
            lemma_stmts_within(body, body.len() as int, locks, env, ord);
            if let (Ok(r1), Ok(r2)) = (walk(*iter, locks, bound, ord), walk_stmts(body, body.len() as int, locks, env, ord)) {
                lemma_within_extend(r1, r2, locks);
            }
        },
        ExprNode::Call { func, args } => {
            lemma_walk_within(*func, locks, bound, ord);
            lemma_args_within(args, args.len() as int, locks, bound, ord);
            if let (Ok(r1), Ok((lst, ctr))) = (walk(*func, locks, bound, ord), walk_args(args, args.len() as int, locks, bound, ord)) {
                lemma_within_extend(r1, lst, locks);
            }
        },
        ExprNode::Match { scrutinee, arms } => {
            lemma_walk_within(*scrutinee, locks, bound, ord);
            lemma_arms_within(arms, arms.len() as int, locks, bound, ord);
            if let (Ok(r1), Ok(lst)) = (walk(*scrutinee, locks, bound, ord), walk_arms(arms, arms.len() as int, locks, bound, ord)) {
                lemma_within_extend(r1, lst, locks);
            }
        },
        ExprNode::Closure { params, closure_body } => {
            lemma_walk_within(*closure_body, locks, bound + params.deep_view(), ord);
        },
        ExprNode::Paren { inner } => {
            lemma_walk_within(*inner, locks, bound, ord);
        },
        ExprNode::AssignOp { left, right } => {
            lemma_walk_within(*left, locks, bound, ord);
            lemma_walk_within(*right, locks, bound, ord);
            if let (Ok(r), Ok(l)) = (walk(*right, locks, bound, ord), walk(*left, locks, bound, ord)) {
                lemma_within_extend(r, l, locks);
            }
        },
        ExprNode::Range { from, to } => {
            lemma_opt_within(from, locks, bound, ord);
            lemma_opt_within(to, locks, bound, ord);
            if let (Ok(rf), Ok(rt)) = (walk_opt(from, locks, bound, ord), walk_opt(to, locks, bound, ord)) {
                lemma_within_extend(rf, rt, locks);
            }
        },
        ExprNode::Reference { inner } => {
            lemma_walk_within(*inner, locks, bound, ord);
        },
        ExprNode::Unary { inner } => {
            lemma_walk_within(*inner, locks, bound, ord);
        },
        _ => {},
    }
    if let Ok(v) = walk(e, locks, bound, ord) {
        let inner = v.skip(ord.len() as int);
        assert(v =~= ord + inner);
        match e {
            ExprNode::Lit => {
                assert(inner =~= empty);
            },
            ExprNode::Macro => {
                assert(inner =~= empty);
            },
            ExprNode::Path { first, rest } => {
                assert(inner =~= empty);
            },
            _ => {},
        }
        lemma_within_extend(ord, inner, locks);
    }
}

proof fn lemma_stmt_within(s: StmtNode, locks: Seq<LockName>, env: Seq<LockName>, ord: LockSeqs)
    requires
        within(ord, locks),
    ensures
        walk_stmt(s, locks, env, ord) matches Ok(v) ==> within(v, locks),
    decreases s, 0int,
{
    assert(within(Seq::<Seq<LockName>>::empty(), locks));
    match s {
        StmtNode::Local { bindings, init } => {
            if let Some(e) = init {
                lemma_walk_within(e, locks, env, ord);
            }
        },
        StmtNode::Trailing { expr } => {
            lemma_walk_within(expr, locks, env, ord);
        },
        StmtNode::Semi { expr } => {
            lemma_walk_within(expr, locks, env, ord);
        },
        StmtNode::Item => {},
    }
}

proof fn lemma_stmts_within(
    stmts: Vec<StmtNode>,
    n: int,
    locks: Seq<LockName>,
    bound: Seq<LockName>,
    ord: LockSeqs,
)
    requires
        within(ord, locks),
    ensures
        walk_stmts(stmts, n, locks, bound, ord) matches Ok(v) ==> within(v, locks),
    decreases stmts, n,
{
    if 0 < n <= stmts.len() {
        let env = bound + let_bindings(stmts, n - 1);
        lemma_stmts_within(stmts, n - 1, locks, bound, ord);
        lemma_stmt_within(stmts@[n - 1], locks, env, ord);
        if let (Ok(prev), Ok(o)) = (walk_stmts(stmts, n - 1, locks, bound, ord), walk_stmt(stmts@[n - 1], locks, env, ord)) {
            lemma_within_extend(prev, o, locks);
        }
    }
}

proof fn lemma_args_within(
    args: Vec<ExprNode>,
    n: int,
    locks: Seq<LockName>,
    bound: Seq<LockName>,
    ord: LockSeqs,
)
    requires
        within(ord, locks),
    ensures
        walk_args(args, n, locks, bound, ord) matches Ok((lst, ctr)) ==> within(lst, locks),
    decreases args, n,
{
    assert(within(Seq::<Seq<LockName>>::empty(), locks));
    if 0 < n <= args.len() {
        lemma_args_within(args, n - 1, locks, bound, ord);
        lemma_walk_within(args@[n - 1], locks, bound, ord);
        if let (Ok((lst, c)), Ok(r)) = (walk_args(args, n - 1, locks, bound, ord), walk(args@[n - 1], locks, bound, ord)) {
            lemma_within_extend(lst, r, locks);
        }
    }
}

proof fn lemma_arms_within(
    arms: Vec<MatchArm>,
    n: int,
    locks: Seq<LockName>,
    bound: Seq<LockName>,
    ord: LockSeqs,
)
    requires
        within(ord, locks),
    ensures
        walk_arms(arms, n, locks, bound, ord) matches Ok(lst) ==> within(lst, locks),
    decreases arms, n,
{
    assert(within(Seq::<Seq<LockName>>::empty(), locks));
    if 0 < n <= arms.len() {
        let env = bound + arms@[n - 1].bindings.deep_view();
        lemma_arms_within(arms, n - 1, locks, bound, ord);
        lemma_walk_within(arms@[n - 1].body, locks, env, ord);
        if let (Ok(lst), Ok(r)) = (walk_arms(arms, n - 1, locks, bound, ord), walk(arms@[n - 1].body, locks, env, ord)) {
            lemma_within_extend(lst, r, locks);
        }
    }
}

/// Only `.lock()` calls on declared locks are recorded: every lock in the
/// orderings of an accepted thread block is one of the declared `locks`.
pub proof fn lemma_only_declared_locks(e: ExprNode, locks: Seq<LockName>)
    ensures
        walk(e, locks, Seq::empty(), Seq::empty()) matches Ok(v) ==> within(v, locks),
{
    assert(within(Seq::<Seq<LockName>>::empty(), locks));
    lemma_walk_within(e, locks, Seq::empty(), Seq::empty());
}


/// The orderings of statements `n..m` of `stmts`, each walked with `in_lst`
/// in front and with the identifiers bound before it, combined
/// multiplicatively, starting from no ordering.
pub open spec fn walk_stmts_range(
    stmts: Vec<StmtNode>,
    n: int,
    m: int,
    locks: Seq<LockName>,
    bound: Seq<LockName>,
    in_lst: LockSeqs,
) -> Result<LockSeqs, LockError>
    decreases m - n,
{
    if m <= n || m > stmts.len() {
        Ok(Seq::empty())
    } else {
        match walk_stmts_range(stmts, n, m - 1, locks, bound, in_lst) {
            Err(x) => Err(x),
            Ok(prev) => match walk_stmt(
                stmts@[m - 1],
                locks,
                bound + let_bindings(stmts, m - 1),
                in_lst,
            ) {
                Err(x) => Err(x),
                Ok(o) => Ok(extend_spec(prev, o)),
            },
        }
    }
}

/// Walking a block in two parts and combining the parts gives the walk of
/// the whole block: the first `m` statements yield the orderings of the
/// first `n` extended by those of statements `n..m` (or the first refusal).
pub proof fn lemma_stmts_split(
    stmts: Vec<StmtNode>,
    n: int,
    m: int,
    locks: Seq<LockName>,
    bound: Seq<LockName>,
)
    requires
        0 <= n <= m <= stmts.len(),
    ensures
        walk_stmts(stmts, m, locks, bound, Seq::empty()) == match walk_stmts(
            stmts,
            n,
            locks,
            bound,
            Seq::empty(),
        ) {
            Err(x) => Err(x),
            Ok(a) => match walk_stmts_range(stmts, n, m, locks, bound, Seq::empty()) {
                Err(x) => Err(x),
                Ok(b) => Ok(extend_spec(a, b)),
            },
        },
    decreases m - n,
{
    let e = Seq::<Seq<LockName>>::empty();
    if m == n {
        if let Ok(a) = walk_stmts(stmts, n, locks, bound, e) {
            crate::orderings::lemma_extend_identity(a);
        }
    } else {
        lemma_stmts_split(stmts, n, m - 1, locks, bound);
        if m - 1 > 0 && walk_stmts(stmts, n, locks, bound, e) is Err && n > 0 {
            lemma_stmts_err_persists(stmts, n, m, locks, bound, e);
        }
        if let (Ok(a), Ok(b)) = (
            walk_stmts(stmts, n, locks, bound, e),
            walk_stmts_range(stmts, n, m - 1, locks, bound, e),
        ) {
            if let Ok(o) = walk_stmt(stmts@[m - 1], locks, bound + let_bindings(stmts, m - 1), e) {
                crate::orderings::lemma_extend_assoc(a, b, o);
            }
        }
    }
}

/// The identifiers bound by the first `j` statements only depend on those
/// statements.
proof fn lemma_let_bindings_prefix(stmts: Vec<StmtNode>, s1: Vec<StmtNode>, j: int)
    requires
        0 <= j <= s1.len() <= stmts.len(),
        forall|i: int| 0 <= i < s1.len() ==> stmts@[i] == s1@[i],
    ensures
        let_bindings(stmts, j) == let_bindings(s1, j),
    decreases j,
{
    if j > 0 {
        lemma_let_bindings_prefix(stmts, s1, j - 1);
    }
}

/// The identifiers bound by the first `s1.len() + k` statements of
/// `s1 ++ s2`: all those of `s1`, then those of the first `k` of `s2`.
proof fn lemma_let_bindings_concat(
    stmts: Vec<StmtNode>,
    s1: Vec<StmtNode>,
    s2: Vec<StmtNode>,
    k: int,
)
    requires
        stmts@ == s1@ + s2@,
        0 <= k <= s2.len(),
    ensures
        let_bindings(stmts, s1.len() + k) == let_bindings(s1, s1.len() as int) + let_bindings(
            s2,
            k,
        ),
    decreases k,
{
    let n = s1.len() as int;
    if k == 0 {
        lemma_let_bindings_prefix(stmts, s1, n);
        assert(let_bindings(s1, n) + let_bindings(s2, 0) =~= let_bindings(s1, n));
    } else {
        lemma_let_bindings_concat(stmts, s1, s2, k - 1);
        assert(stmts@[n + k - 1] == s2@[k - 1]);
        let last = match s2@[k - 1] {
            StmtNode::Local { bindings, init } => bindings.deep_view(),
            _ => Seq::empty(),
        };
        assert((let_bindings(s1, n) + let_bindings(s2, k - 1)) + last =~= let_bindings(s1, n) + (
        let_bindings(s2, k - 1) + last));
    }
}

/// The walk of the first `j` statements only depends on those statements.
proof fn lemma_walk_stmts_prefix(
    stmts: Vec<StmtNode>,
    s1: Vec<StmtNode>,
    j: int,
    locks: Seq<LockName>,
    bound: Seq<LockName>,
)
    requires
        0 <= j <= s1.len() <= stmts.len(),
        forall|i: int| 0 <= i < s1.len() ==> stmts@[i] == s1@[i],
    ensures
        walk_stmts(stmts, j, locks, bound, Seq::empty()) == walk_stmts(
            s1,
            j,
            locks,
            bound,
            Seq::empty(),
        ),
    decreases j,
{
    if j > 0 {
        lemma_walk_stmts_prefix(stmts, s1, j - 1, locks, bound);
        lemma_let_bindings_prefix(stmts, s1, j - 1);
    }
}

/// The statements of `s1 ++ s2` after those of `s1` are walked as `s2` is,
/// with the identifiers bound by `s1` bound as well.
proof fn lemma_walk_range_suffix(
    stmts: Vec<StmtNode>,
    s1: Vec<StmtNode>,
    s2: Vec<StmtNode>,
    k: int,
    locks: Seq<LockName>,
    bound: Seq<LockName>,
)
    requires
        stmts@ == s1@ + s2@,
        0 <= k <= s2.len(),
    ensures
        walk_stmts_range(stmts, s1.len() as int, s1.len() + k, locks, bound, Seq::empty())
            == walk_stmts(
            s2,
            k,
            locks,
            bound + let_bindings(s1, s1.len() as int),
            Seq::empty(),
        ),
    decreases k,
{
    let n = s1.len() as int;
    if k > 0 {
        lemma_walk_range_suffix(stmts, s1, s2, k - 1, locks, bound);
        lemma_let_bindings_concat(stmts, s1, s2, k - 1);
        assert(stmts@[n + k - 1] == s2@[k - 1]);
        assert(bound + let_bindings(stmts, n + k - 1) =~= (bound + let_bindings(s1, n))
            + let_bindings(s2, k - 1));
    }
}

/// Two statement lists walked one after the other: the walk of `s1 ++ s2`
/// is the walk of `s1` extended by the walk of `s2` (or the first refusal),
/// wherever the identifiers that `s1` binds by `let` do not change how `s2`
/// is walked.
pub proof fn lemma_stmt_lists_concat(
    stmts: Vec<StmtNode>,
    s1: Vec<StmtNode>,
    s2: Vec<StmtNode>,
    locks: Seq<LockName>,
    bound: Seq<LockName>,
)
    requires
        stmts@ == s1@ + s2@,
        walk_stmts(s1, s1.len() as int, locks, bound, Seq::empty()) is Ok ==> walk_stmts(
            s2,
            s2.len() as int,
            locks,
            bound + let_bindings(s1, s1.len() as int),
            Seq::empty(),
        ) == walk_stmts(s2, s2.len() as int, locks, bound, Seq::empty()),
    ensures
        walk_stmts(stmts, stmts.len() as int, locks, bound, Seq::empty()) == match walk_stmts(
            s1,
            s1.len() as int,
            locks,
            bound,
            Seq::empty(),
        ) {
            Err(x) => Err(x),
            Ok(a) => match walk_stmts(s2, s2.len() as int, locks, bound, Seq::empty()) {
                Err(x) => Err(x),
                Ok(b) => Ok(extend_spec(a, b)),
            },
        },
{
    let n = s1.len() as int;
    assert(stmts.len() == s1.len() + s2.len());
    assert forall|i: int| 0 <= i < s1.len() implies stmts@[i] == s1@[i] by {}
    lemma_stmts_split(stmts, n, stmts.len() as int, locks, bound);
    lemma_walk_stmts_prefix(stmts, s1, n, locks, bound);
    lemma_walk_range_suffix(stmts, s1, s2, s2.len() as int, locks, bound);
}

/// Whether two strings hold the same characters.
pub fn str_equals(a: &str, b: &str) -> (r: bool)
    ensures
        r == (a@ == b@),
{
    let n = a.unicode_len();
    let m = b.unicode_len();
    if n != m {
        return false;
    }
    for i in 0..n
        invariant
            n == a@.len(),
            m == b@.len(),
            n == m,
            forall|k: int| 0 <= k < i ==> a@[k] == b@[k],
    {
        if a.get_char(i) != b.get_char(i) {
            return false;
        }
    }
    assert(a@ =~= b@);
    true
}

/// Whether `name` is one of `names`.
pub fn contains_name(names: &Vec<String>, name: &String) -> (r: bool)
    ensures
        r == names.deep_view().contains(name@),
{
    let n = names.len();
    for i in 0..n
        invariant
            n == names.len(),
            forall|k: int| 0 <= k < i ==> names@[k]@ != name@,
    {
        if str_equals(names[i].as_str(), name.as_str()) {
            assert(names.deep_view()[i as int] == name@);
            return true;
        }
    }
    assert forall|k: int| 0 <= k < names.deep_view().len() implies names.deep_view()[k] != name@ by {
        assert(names.deep_view()[k] == names@[k]@);
    }
    false
}

/// Copies a list of orderings.
pub fn clone_orderings(o: &Vec<Vec<String>>) -> (r: Vec<Vec<String>>)
    ensures
        r.deep_view() == o.deep_view(),
{
    let mut r: Vec<Vec<String>> = Vec::new();
    let n = o.len();
    for i in 0..n
        invariant
            n == o.len(),
            r.deep_view() =~= o.deep_view().take(i as int),
    {
        let ghost prev = r.deep_view();
        r.push(clone_ordering(&o[i]));
        assert(r.deep_view() =~= prev.push(o.deep_view()[i as int]));
    }
    assert(o.deep_view().take(n as int) =~= o.deep_view());
    r
}

/// The orderings of `a` followed by those of `b`.
pub fn concat_orderings(a: Vec<Vec<String>>, b: Vec<Vec<String>>) -> (r: Vec<Vec<String>>)
    ensures
        r.deep_view() == a.deep_view() + b.deep_view(),
{
    let mut a = a;
    let mut b = b;
    let ghost av = a@;
    let ghost bv = b@;
    a.append(&mut b);
    assert(a@ == av + bv);
    assert(a.deep_view() =~= av.map_values(|o: Vec<String>| o.deep_view()) + bv.map_values(
        |o: Vec<String>| o.deep_view(),
    ));
    a
}

/// A list holding the single ordering `[name]`.
fn single_ordering(name: String) -> (r: Vec<Vec<String>>)
    ensures
        r.deep_view() == seq![seq![name@]],
{
    let mut o: Vec<String> = Vec::new();
    o.push(name);
    let mut r: Vec<Vec<String>> = Vec::new();
    r.push(o);
    assert(o.deep_view() =~= seq![name@]);
    assert(r.deep_view() =~= seq![seq![name@]]);
    r
}


/// Whether `name` names a declared lock that no binding in `bound` shadows.
pub fn is_declared_lock(name: &String, locks: &Vec<String>, bound: &Vec<String>) -> (r: bool)
    ensures
        r == is_lock(name@, locks.deep_view(), bound.deep_view()),
{
    contains_name(locks, name) && !contains_name(bound, name)
}

/// Whether `e` is a declared lock itself: its name, possibly borrowed or in
/// parentheses.
pub fn denotes_lock(e: &ExprNode, locks: &Vec<String>, bound: &Vec<String>) -> (r: bool)
    ensures
        r == lock_ref(*e, locks.deep_view(), bound.deep_view()),
    decreases e,
{
    match e {
        ExprNode::Path { first, rest } => rest.len() == 0 && is_declared_lock(first, locks, bound),
        ExprNode::Reference { inner } => denotes_lock(inner, locks, bound),
        ExprNode::Paren { inner } => denotes_lock(inner, locks, bound),
        _ => false,
    }
}

/// Whether the path `first::rest..` has a segment `x` directly followed by a
/// segment `y`.
pub fn path_has_adjacent(first: &String, rest: &Vec<String>, x: &str, y: &str) -> (r: bool)
    ensures
        r == has_adjacent(path_segments(*first, *rest), x@, y@),
{
    let ghost segs = path_segments(*first, *rest);
    let n = rest.len();
    for i in 0..n
        invariant
            n == rest.len(),
            segs == path_segments(*first, *rest),
            segs.len() == n + 1,
            forall|k: int| 0 <= k < i ==> !(#[trigger] segs[k] == x@ && segs[k + 1] == y@),
    {
        let cur: &String = if i == 0 {
            first
        } else {
            &rest[i - 1]
        };
        assert(cur@ == segs[i as int]);
        assert(rest@[i as int]@ == segs[i + 1]);
        if str_equals(cur.as_str(), x) && str_equals(rest[i].as_str(), y) {
            return true;
        }
    }
    false
}

/// Why a call of the path `first::rest..` is refused, if it is.
pub fn call_refusal_of(first: &String, rest: &Vec<String>, bound: &Vec<String>) -> (r: Option<
    LockError,
>)
    ensures
        r == call_refusal(*first, *rest, bound.deep_view()),
{
    proof {
        reveal_strlit("Arc");
        reveal_strlit("clone");
        reveal_strlit("Mutex");
        reveal_strlit("new");
        assert("Arc"@ =~= arc_segment());
        assert("clone"@ =~= clone_segment());
        assert("Mutex"@ =~= mutex_segment());
        assert("new"@ =~= new_segment());
    }
    if path_has_adjacent(first, rest, "Arc", "clone") {
        Some(LockError::ArcCloneCall)
    } else if path_has_adjacent(first, rest, "Mutex", "new") {
        Some(LockError::NewMutex)
    } else if rest.len() == 0 && contains_name(bound, first) {
        Some(LockError::IndirectCall)
    } else {
        None
    }
}

/// `bound` followed by `names`.
fn with_bindings(bound: &Vec<String>, names: &Vec<String>) -> (r: Vec<String>)
    ensures
        r.deep_view() == bound.deep_view() + names.deep_view(),
{
    let mut r = clone_ordering(bound);
    append_ordering(&mut r, names);
    r
}

proof fn lemma_stmts_err_persists(
    stmts: Vec<StmtNode>,
    k: int,
    n: int,
    locks: Seq<LockName>,
    bound: Seq<LockName>,
    ord: LockSeqs,
)
    requires
        0 < k <= n <= stmts.len(),
        walk_stmts(stmts, k, locks, bound, ord) is Err,
    ensures
        walk_stmts(stmts, n, locks, bound, ord) == walk_stmts(stmts, k, locks, bound, ord),
    decreases n - k,
{
    if n > k {
        lemma_stmts_err_persists(stmts, k, n - 1, locks, bound, ord);
    }
}

proof fn lemma_args_err_persists(
    args: Vec<ExprNode>,
    k: int,
    n: int,
    locks: Seq<LockName>,
    bound: Seq<LockName>,
    ord: LockSeqs,
)
    requires
        0 < k <= n <= args.len(),
        walk_args(args, k, locks, bound, ord) is Err,
    ensures
        walk_args(args, n, locks, bound, ord) == walk_args(args, k, locks, bound, ord),
    decreases n - k,
{
    if n > k {
        lemma_args_err_persists(args, k, n - 1, locks, bound, ord);
    }
}

proof fn lemma_arms_err_persists(
    arms: Vec<MatchArm>,
    k: int,
    n: int,
    locks: Seq<LockName>,
    bound: Seq<LockName>,
    ord: LockSeqs,
)
    requires
        0 < k <= n <= arms.len(),
        walk_arms(arms, k, locks, bound, ord) is Err,
    ensures
        walk_arms(arms, n, locks, bound, ord) == walk_arms(arms, k, locks, bound, ord),
    decreases n - k,
{
    if n > k {
        lemma_arms_err_persists(arms, k, n - 1, locks, bound, ord);
    }
}

/// The orderings of one statement walked with the identifiers `env` bound,
/// with `in_lst` in front, or why it is refused.
pub fn parse_stmt(
    s: &StmtNode,
    lock_subst: &Vec<String>,
    env: &Vec<String>,
    in_lst: &Vec<Vec<String>>,
) -> (r: Result<Vec<Vec<String>>, LockError>)
    ensures
        result_view(r) == walk_stmt(*s, lock_subst.deep_view(), env.deep_view(), in_lst.deep_view()),
    decreases s, 0int,
{
    match s {
        StmtNode::Local { bindings, init } => match init {
            Some(e) => if denotes_lock(e, lock_subst, env) {
                Err(LockError::LockBinding)
            } else {
                parse_ast_in(e, lock_subst, env, in_lst)
            },
            None => {
                let v: Vec<Vec<String>> = Vec::new();
                assert(v.deep_view() =~= Seq::<Seq<Seq<char>>>::empty());
                Ok(v)
            },
        },
        StmtNode::Item => {
            let v: Vec<Vec<String>> = Vec::new();
            assert(v.deep_view() =~= Seq::<Seq<Seq<char>>>::empty());
            Ok(v)
        },
        StmtNode::Trailing { expr } => parse_ast_in(expr, lock_subst, env, in_lst),
        StmtNode::Semi { expr } => parse_ast_in(expr, lock_subst, env, in_lst),
    }
}

/// The orderings of a block of statements walked with the identifiers
/// `bound` bound, with `in_lst` in front, or why the block is refused.
pub fn parse_stmts_in(
    stmts: &Vec<StmtNode>,
    lock_subst: &Vec<String>,
    bound: &Vec<String>,
    in_lst: &Vec<Vec<String>>,
) -> (r: Result<Vec<Vec<String>>, LockError>)
    ensures
        result_view(r) == walk_stmts(
            *stmts,
            stmts.len() as int,
            lock_subst.deep_view(),
            bound.deep_view(),
            in_lst.deep_view(),
        ),
    decreases stmts, 0int,
{
    let ghost locks = lock_subst.deep_view();
    let ghost bv = bound.deep_view();
    let ghost ord = in_lst.deep_view();
    let mut final_orderings = clone_orderings(in_lst);
    let mut env = clone_ordering(bound);
    assert(env.deep_view() =~= bv + let_bindings(*stmts, 0));
    let n = stmts.len();
    for i in 0..n
        invariant
            n == stmts.len(),
            locks == lock_subst.deep_view(),
            bv == bound.deep_view(),
            ord == in_lst.deep_view(),
            env.deep_view() == bv + let_bindings(*stmts, i as int),
            walk_stmts(*stmts, i as int, locks, bv, ord) == Ok::<LockSeqs, LockError>(
                final_orderings.deep_view(),
            ),
    {
        let orderings = match parse_stmt(&stmts[i], lock_subst, &env, in_lst) {
            Ok(v) => v,
            Err(x) => {
                proof {
                    lemma_stmts_err_persists(*stmts, i + 1, n as int, locks, bv, ord);
                }
                return Err(x);
            },
        };
        final_orderings = extend_orderings(final_orderings, orderings);
        match &stmts[i] {
            StmtNode::Local { bindings, init } => {
                let ghost prev = env.deep_view();
                append_ordering(&mut env, bindings);
                assert(env.deep_view() =~= bv + let_bindings(*stmts, i + 1));
            },
            _ => {
                assert(let_bindings(*stmts, i + 1) =~= let_bindings(*stmts, i as int));
            },
        }
    }
    Ok(final_orderings)
}

/// The orderings of a block of statements, with `in_lst` in front, or why
/// the block is refused.
pub fn parse_stmts_vec(
    stmts: &Vec<StmtNode>,
    lock_subst: &Vec<String>,
    in_lst: &Vec<Vec<String>>,
) -> (r: Result<Vec<Vec<String>>, LockError>)
    ensures
        result_view(r) == walk_stmts(
            *stmts,
            stmts.len() as int,
            lock_subst.deep_view(),
            Seq::empty(),
            in_lst.deep_view(),
        ),
{
    let bound: Vec<String> = Vec::new();
    assert(bound.deep_view() =~= Seq::<LockName>::empty());
    parse_stmts_in(stmts, lock_subst, &bound, in_lst)
}

/// The orderings of expression `expr` with `orderings` in front, or why the
/// expression is refused. Only `.lock()` calls whose receiver names one of
/// `lock_subst` acquire a lock.
pub fn parse_ast(
    expr: &ExprNode,
    lock_subst: &Vec<String>,
    orderings: &Vec<Vec<String>>,
) -> (r: Result<Vec<Vec<String>>, LockError>)
    ensures
        result_view(r) == walk(*expr, lock_subst.deep_view(), Seq::empty(), orderings.deep_view()),
{
    let bound: Vec<String> = Vec::new();
    assert(bound.deep_view() =~= Seq::<LockName>::empty());
    parse_ast_in(expr, lock_subst, &bound, orderings)
}

/// The orderings of expression `expr` walked with the identifiers `bound`
/// bound, with `orderings` in front, or why the expression is refused.
#[verifier::loop_isolation(false)]
#[verifier::spinoff_prover]
#[verifier::rlimit(60)]
pub fn parse_ast_in(
    expr: &ExprNode,
    lock_subst: &Vec<String>,
    bound: &Vec<String>,
    orderings: &Vec<Vec<String>>,
) -> (r: Result<Vec<Vec<String>>, LockError>)
    ensures
        result_view(r) == walk(
            *expr,
            lock_subst.deep_view(),
            bound.deep_view(),
            orderings.deep_view(),
        ),
    decreases expr, 0int,
{
    let ghost locks = lock_subst.deep_view();
    let ghost bv = bound.deep_view();
    let ghost ord = orderings.deep_view();
    let result: Vec<Vec<String>> = match expr {
        ExprNode::Block { stmts } => match parse_stmts_in(stmts, lock_subst, bound, orderings) {
            Ok(v) => v,
            Err(x) => return Err(x),
        },
        ExprNode::If { cond, then_branch, else_branch } => {
            let r1 = match parse_ast_in(cond, lock_subst, bound, orderings) {
                Ok(v) => v,
                Err(x) => return Err(x),
            };
            let r2 = match parse_stmts_in(then_branch, lock_subst, bound, orderings) {
                Ok(v) => v,
                Err(x) => return Err(x),
            };
            let r3 = match else_branch {
                Some(eb) => match parse_ast_in(eb, lock_subst, bound, orderings) {
                    Ok(v) => v,
                    Err(x) => {
                        assert(walk_opt(*else_branch, locks, bv, ord) == walk(**eb, locks, bv, ord));
                        return Err(x);
                    },
                },
                None => {
                    let v: Vec<Vec<String>> = Vec::new();
                    assert(v.deep_view() =~= Seq::<Seq<Seq<char>>>::empty());
                    v
                },
            };
            assert(walk_opt(*else_branch, locks, bv, ord) == Ok::<LockSeqs, LockError>(r3.deep_view()));
            let r4 = concat_orderings(clone_orderings(&r1), r2);
            let r5 = concat_orderings(r1, r3);
            concat_orderings(r4, r5)
        },
        ExprNode::MethodCall { receiver, method } => {
            let mut r1 = match parse_ast_in(receiver, lock_subst, bound, orderings) {
                Ok(v) => v,
                Err(x) => return Err(x),
            };
            proof {
                reveal_strlit("lock");
                assert("lock"@ =~= lock_method());
            }
            if str_equals(method.as_str(), "lock") {
                let target = match &**receiver {
                    ExprNode::Path { first, rest } => if is_declared_lock(first, lock_subst, bound) {
                        Some(first.clone())
                    } else {
                        None
                    },
                    _ => None,
                };
                match target {
                    Some(lock_name) => {
                        let ghost prev = r1.deep_view();
                        let ghost nm = lock_name@;
                        r1 = concat_orderings(r1, single_ordering(lock_name));
                        assert(r1.deep_view() =~= prev.push(seq![nm]));
                    },
                    None => {
                        return Err(LockError::UndeclaredLock);
                    },
                }
            }
            r1
        },
        ExprNode::While { cond, body } => {
            let r1 = match parse_ast_in(cond, lock_subst, bound, orderings) {
                Ok(v) => v,
                Err(x) => return Err(x),
            };
            let r2 = match parse_stmts_in(body, lock_subst, bound, orderings) {
                Ok(v) => v,
                Err(x) => return Err(x),
            };
            concat_orderings(r1, r2)
        },
        ExprNode::Loop { body } => match parse_stmts_in(body, lock_subst, bound, orderings) {
            Ok(v) => v,
            Err(x) => return Err(x),
        },
        ExprNode::ForLoop { bindings, iter, body } => {
            let r1 = match parse_ast_in(iter, lock_subst, bound, orderings) {
                Ok(v) => v,
                Err(x) => return Err(x),
            };
            let env = with_bindings(bound, bindings);
            let r2 = match parse_stmts_in(body, lock_subst, &env, orderings) {
                Ok(v) => v,
                Err(x) => return Err(x),
            };
            concat_orderings(r1, r2)
        },
        ExprNode::Call { func, args } => {
            match &**func {
                ExprNode::Path { first, rest } => {
                    match call_refusal_of(first, rest, bound) {
                        Some(x) => {
                            return Err(x);
                        },
                        None => {},
                    }
                },
                _ => {
                    return Err(LockError::IndirectCall);
                },
            }
            let mut arg_lst: Vec<Vec<String>> = Vec::new();
            let mut arg_ctr: usize = 0;
            let n = args.len();
            assert(arg_lst.deep_view() =~= Seq::<Seq<Seq<char>>>::empty());
            for i in 0..n
                invariant
                    n == args.len(),
                    locks == lock_subst.deep_view(),
                    bv == bound.deep_view(),
                    ord == orderings.deep_view(),
                    arg_ctr <= i,
                    walk_args(*args, i as int, locks, bv, ord) == Ok::<(LockSeqs, nat), LockError>(
                        (arg_lst.deep_view(), arg_ctr as nat),
                    ),
            {
                let result = match parse_ast_in(&args[i], lock_subst, bound, orderings) {
                    Ok(v) => v,
                    Err(x) => {
                        proof {
                            lemma_args_err_persists(*args, i + 1, n as int, locks, bv, ord);
                        }
                        return Err(x);
                    },
                };
                if result.len() > 1 {
                    proof {
                        lemma_args_err_persists(*args, i + 1, n as int, locks, bv, ord);
                    }
                    return Err(LockError::MultipleLockArguments);
                }
                if result.len() > 0 || denotes_lock(&args[i], lock_subst, bound) {
                    arg_ctr = arg_ctr + 1;
                }
                arg_lst = concat_orderings(arg_lst, result);
            }
            if arg_ctr > 1 {
                return Err(LockError::MultipleLockArguments);
            }
            let r1 = match parse_ast_in(func, lock_subst, bound, orderings) {
                Ok(v) => v,
                Err(x) => return Err(x),
            };
            concat_orderings(r1, arg_lst)
        },
        ExprNode::Match { scrutinee, arms } => {
            let r1 = match parse_ast_in(scrutinee, lock_subst, bound, orderings) {
                Ok(v) => v,
                Err(x) => return Err(x),
            };
            let mut return_lst: Vec<Vec<String>> = Vec::new();
            let n = arms.len();
            assert(return_lst.deep_view() =~= Seq::<Seq<Seq<char>>>::empty());
            for i in 0..n
                invariant
                    n == arms.len(),
                    locks == lock_subst.deep_view(),
                    bv == bound.deep_view(),
                    ord == orderings.deep_view(),
                    walk_arms(*arms, i as int, locks, bv, ord) == Ok::<LockSeqs, LockError>(
                        return_lst.deep_view(),
                    ),
            {
                let arm = &arms[i];
                let env = with_bindings(bound, &arm.bindings);
                let r = match parse_ast_in(&arm.body, lock_subst, &env, orderings) {
                    Ok(v) => v,
                    Err(x) => {
                        proof {
                            lemma_arms_err_persists(*arms, i + 1, n as int, locks, bv, ord);
                        }
                        return Err(x);
                    },
                };
                return_lst = concat_orderings(return_lst, r);
            }
            extend_orderings(r1, return_lst)
        },
        ExprNode::Closure { params, closure_body } => {
            let env = with_bindings(bound, params);
            match parse_ast_in(closure_body, lock_subst, &env, orderings) {
                Ok(v) => v,
                Err(x) => return Err(x),
            }
        },
        ExprNode::Lit => Vec::new(),
        ExprNode::Macro => Vec::new(),
        ExprNode::Paren { inner } => match parse_ast_in(inner, lock_subst, bound, orderings) {
            Ok(v) => v,
            Err(x) => return Err(x),
        },
        ExprNode::AssignOp { left, right } => {
            let r = match parse_ast_in(right, lock_subst, bound, orderings) {
                Ok(v) => v,
                Err(x) => return Err(x),
            };
            let l = match parse_ast_in(left, lock_subst, bound, orderings) {
                Ok(v) => v,
                Err(x) => return Err(x),
            };
            concat_orderings(r, l)
        },
        ExprNode::Unsafe => {
            return Err(LockError::UnsafeBlock);
        },
        ExprNode::Range { from, to } => {
            let rf = match from {
                Some(f) => match parse_ast_in(f, lock_subst, bound, orderings) {
                    Ok(v) => v,
                    Err(x) => {
                        assert(walk_opt(*from, locks, bv, ord) == walk(**f, locks, bv, ord));
                        return Err(x);
                    },
                },
                None => {
                    let v: Vec<Vec<String>> = Vec::new();
                    assert(v.deep_view() =~= Seq::<Seq<Seq<char>>>::empty());
                    v
                },
            };
            assert(walk_opt(*from, locks, bv, ord) == Ok::<LockSeqs, LockError>(rf.deep_view()));
            let rt = match to {
                Some(t) => match parse_ast_in(t, lock_subst, bound, orderings) {
                    Ok(v) => v,
                    Err(x) => {
                        assert(walk_opt(*to, locks, bv, ord) == walk(**t, locks, bv, ord));
                        return Err(x);
                    },
                },
                None => {
                    let v: Vec<Vec<String>> = Vec::new();
                    assert(v.deep_view() =~= Seq::<Seq<Seq<char>>>::empty());
                    v
                },
            };
            assert(walk_opt(*to, locks, bv, ord) == Ok::<LockSeqs, LockError>(rt.deep_view()));
            concat_orderings(rf, rt)
        },
        ExprNode::Path { first, rest } => Vec::new(),
        ExprNode::Reference { inner } => match parse_ast_in(inner, lock_subst, bound, orderings) {
            Ok(v) => v,
            Err(x) => return Err(x),
        },
        ExprNode::Unary { inner } => match parse_ast_in(inner, lock_subst, bound, orderings) {
            Ok(v) => v,
            Err(x) => return Err(x),
        },
        ExprNode::Unsupported => {
            return Err(LockError::UnsupportedExpression);
        },
    };
    let return_val = concat_orderings(clone_orderings(orderings), result);
    Ok(return_val)
}

} // verus!
