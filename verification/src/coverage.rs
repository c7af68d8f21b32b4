//! What a walk records: every lock that a `.lock()` call in an accepted
//! thread block acquires occurs in some ordering of the block's result.
use vstd::prelude::*;
use crate::ast::{MatchArm, ExprNode, StmtNode};
use crate::analysis::{
    walk, walk_opt, walk_stmt, walk_stmts, walk_args, walk_arms, let_bindings, lock_method,
    lock_target,
};
use crate::orderings::{LockName, LockSeqs, extend_spec, recorded, lemma_recorded_extend};

verus! {

/// Whether `e` contains a `.lock()` call that acquires the declared lock
/// `x`: a call whose receiver is a path naming `x`, where no identifier
/// bound around the call (by `let`, a `for` or closure pattern, a match arm,
/// or `bound`) shadows `x`. Any part of the expression may hold it.
pub open spec fn acquires(e: ExprNode, locks: Seq<LockName>, bound: Seq<LockName>, x: LockName) -> bool
    decreases e, 0int,
{
    match e {
        ExprNode::Block { stmts } => acquires_stmts(stmts, stmts.len() as int, locks, bound, x),
        ExprNode::If { cond, then_branch, else_branch } => acquires(*cond, locks, bound, x)
            || acquires_stmts(then_branch, then_branch.len() as int, locks, bound, x)
            || acquires_opt(else_branch, locks, bound, x),
        ExprNode::MethodCall { receiver, method } => (method@ == lock_method() && lock_target(
            *receiver,
            locks,
            bound,
        ) == Some(x)) || acquires(*receiver, locks, bound, x),
        ExprNode::While { cond, body } => acquires(*cond, locks, bound, x) || acquires_stmts(
            body,
            body.len() as int,
            locks,
            bound,
            x,
        ),
        ExprNode::Loop { body } => acquires_stmts(body, body.len() as int, locks, bound, x),
        ExprNode::ForLoop { bindings, iter, body } => acquires(*iter, locks, bound, x)
            || acquires_stmts(body, body.len() as int, locks, bound + bindings.deep_view(), x),
        ExprNode::Call { func, args } => acquires(*func, locks, bound, x) || acquires_args(
            args,
            args.len() as int,
            locks,
            bound,
            x,
        ),
        ExprNode::Match { scrutinee, arms } => acquires(*scrutinee, locks, bound, x)
            || acquires_arms(arms, arms.len() as int, locks, bound, x),
        ExprNode::Closure { params, closure_body } => acquires(
            *closure_body,
            locks,
            bound + params.deep_view(),
            x,
        ),
        ExprNode::Paren { inner } => acquires(*inner, locks, bound, x),
        ExprNode::AssignOp { left, right } => acquires(*left, locks, bound, x) || acquires(
            *right,
            locks,
            bound,
            x,
        ),
        ExprNode::Range { from, to } => acquires_opt(from, locks, bound, x) || acquires_opt(
            to,
            locks,
            bound,
            x,
        ),
        ExprNode::Reference { inner } => acquires(*inner, locks, bound, x),
        ExprNode::Unary { inner } => acquires(*inner, locks, bound, x),
        _ => false,
    }
}

/// Whether an optional expression acquires `x`.
pub open spec fn acquires_opt(
    e: Option<Box<ExprNode>>,
    locks: Seq<LockName>,
    bound: Seq<LockName>,
    x: LockName,
) -> bool
    decreases e, 1int,
{
    match e {
        Some(y) => acquires(*y, locks, bound, x),
        None => false,
    }
}

/// Whether a statement acquires `x`, with the identifiers `env` bound.
pub open spec fn acquires_stmt(s: StmtNode, locks: Seq<LockName>, env: Seq<LockName>, x: LockName) -> bool
    decreases s, 0int,
{
    match s {
        StmtNode::Local { bindings, init } => match init {
            Some(e) => acquires(e, locks, env, x),
            None => false,
        },
        StmtNode::Item => false,
        StmtNode::Trailing { expr } => acquires(expr, locks, env, x),
        StmtNode::Semi { expr } => acquires(expr, locks, env, x),
    }
}

/// Whether one of the first `n` statements acquires `x`, each with the
/// identifiers bound by the `let` statements before it.
pub open spec fn acquires_stmts(
    stmts: Vec<StmtNode>,
    n: int,
    locks: Seq<LockName>,
    bound: Seq<LockName>,
    x: LockName,
) -> bool
    decreases stmts, n,
{
    0 < n <= stmts.len() && (acquires_stmts(stmts, n - 1, locks, bound, x) || acquires_stmt(
        stmts@[n - 1],
        locks,
        bound + let_bindings(stmts, n - 1),
        x,
    ))
}

/// Whether one of the first `n` call arguments acquires `x`.
pub open spec fn acquires_args(
    args: Vec<ExprNode>,
    n: int,
    locks: Seq<LockName>,
    bound: Seq<LockName>,
    x: LockName,
) -> bool
    decreases args, n,
{
    0 < n <= args.len() && (acquires_args(args, n - 1, locks, bound, x) || acquires(
        args@[n - 1],
        locks,
        bound,
        x,
    ))
}

/// Whether one of the first `n` match arms acquires `x`, each with the
/// identifiers its pattern binds.
pub open spec fn acquires_arms(
    arms: Vec<MatchArm>,
    n: int,
    locks: Seq<LockName>,
    bound: Seq<LockName>,
    x: LockName,
) -> bool
    decreases arms, n,
{
    0 < n <= arms.len() && (acquires_arms(arms, n - 1, locks, bound, x) || acquires(
        arms@[n - 1].body,
        locks,
        bound + arms@[n - 1].bindings.deep_view(),
        x,
    ))
}

proof fn lemma_opt_recorded(
    e: Option<Box<ExprNode>>,
    locks: Seq<LockName>,
    bound: Seq<LockName>,
    ord: LockSeqs,
    x: LockName,
)
    ensures
        acquires_opt(e, locks, bound, x) ==> (walk_opt(e, locks, bound, ord) matches Ok(v) ==> recorded(v, x)),
    decreases e, 1int,
{
    if let Some(y) = e {
        lemma_acquired_lock_recorded(*y, locks, bound, ord, x);
    }
}

/// No acquired lock is lost: when a thread block is accepted, every lock
/// that a `.lock()` call anywhere in it acquires (a declared lock no local
/// binding shadows there) occurs in some ordering of the result, whatever
/// part of the expression holds the call: a condition, a branch, a loop's
/// iterated expression or body, an argument, an arm, either operand of a
/// compound assignment, or a receiver.
#[verifier::spinoff_prover]
#[verifier::rlimit(100)]
pub proof fn lemma_acquired_lock_recorded(
    e: ExprNode,
    locks: Seq<LockName>,
    bound: Seq<LockName>,
    ord: LockSeqs,
    x: LockName,
)
    ensures
        acquires(e, locks, bound, x) ==> (walk(e, locks, bound, ord) matches Ok(v) ==> recorded(v, x)),
    decreases e, 0int,
{
    if let Ok(v) = walk(e, locks, bound, ord) {
        if acquires(e, locks, bound, x) {
            let inner = v.skip(ord.len() as int);
            assert(v =~= ord + inner);
            match e {
                ExprNode::Block { stmts } => {
                    lemma_stmts_recorded(stmts, stmts.len() as int, locks, bound, ord, x);
                    assert(inner =~= walk_stmts(stmts, stmts.len() as int, locks, bound, ord)->Ok_0);
                },
                ExprNode::If { cond, then_branch, else_branch } => {
                    lemma_acquired_lock_recorded(*cond, locks, bound, ord, x);
                    lemma_stmts_recorded(then_branch, then_branch.len() as int, locks, bound, ord, x);
                    lemma_opt_recorded(else_branch, locks, bound, ord, x);
                    let r1 = walk(*cond, locks, bound, ord)->Ok_0;
                    let r2 = walk_stmts(then_branch, then_branch.len() as int, locks, bound, ord)->Ok_0;
                    let r3 = walk_opt(else_branch, locks, bound, ord)->Ok_0;
                    if recorded(r1, x) || recorded(r2, x) {
                        lemma_recorded_extend(r1, r2, x);
                        lemma_recorded_extend(r1 + r2, r1 + r3, x);
                    } else {
                        lemma_recorded_extend(r1, r3, x);
                        lemma_recorded_extend(r1 + r2, r1 + r3, x);
                    }
                    assert(inner =~= (r1 + r2) + (r1 + r3));
                },
                ExprNode::MethodCall { receiver, method } => {
                    lemma_acquired_lock_recorded(*receiver, locks, bound, ord, x);
                    let r1 = walk(*receiver, locks, bound, ord)->Ok_0;
                    if method@ == lock_method() {
                        let n = lock_target(*receiver, locks, bound)->Some_0;
                        let one = seq![seq![n]];
                        assert(r1.push(seq![n]) =~= r1 + one);
                        if !recorded(r1, x) {
                            assert(one[0][0] == x);
                        }
                        lemma_recorded_extend(r1, one, x);
                        assert(inner =~= r1.push(seq![n]));
                    } else {
                        assert(inner =~= r1);
                    }
                },
                ExprNode::While { cond, body } => {
                    lemma_acquired_lock_recorded(*cond, locks, bound, ord, x);
                    lemma_stmts_recorded(body, body.len() as int, locks, bound, ord, x);
                    let r1 = walk(*cond, locks, bound, ord)->Ok_0;
                    let r2 = walk_stmts(body, body.len() as int, locks, bound, ord)->Ok_0;
                    lemma_recorded_extend(r1, r2, x);
                    assert(inner =~= r1 + r2);
                },
                ExprNode::Loop { body } => {
                    lemma_stmts_recorded(body, body.len() as int, locks, bound, ord, x);
                    assert(inner =~= walk_stmts(body, body.len() as int, locks, bound, ord)->Ok_0);
                },
                ExprNode::ForLoop { bindings, iter, body } => {
                    let env = bound + bindings.deep_view();
                    lemma_acquired_lock_recorded(*iter, locks, bound, ord, x);
                    lemma_stmts_recorded(body, body.len() as int, locks, env, ord, x);
                    let r1 = walk(*iter, locks, bound, ord)->Ok_0;
                    let r2 = walk_stmts(body, body.len() as int, locks, env, ord)->Ok_0;
                    lemma_recorded_extend(r1, r2, x);
                    assert(inner =~= r1 + r2);
                },
                ExprNode::Call { func, args } => {
                    lemma_acquired_lock_recorded(*func, locks, bound, ord, x);
                    lemma_args_recorded(args, args.len() as int, locks, bound, ord, x);
                    let r1 = walk(*func, locks, bound, ord)->Ok_0;
                    let lst = walk_args(args, args.len() as int, locks, bound, ord)->Ok_0.0;
                    lemma_recorded_extend(r1, lst, x);
                    assert(inner =~= r1 + lst);
                },
                ExprNode::Match { scrutinee, arms } => {
                    lemma_acquired_lock_recorded(*scrutinee, locks, bound, ord, x);
                    lemma_arms_recorded(arms, arms.len() as int, locks, bound, ord, x);
                    let r1 = walk(*scrutinee, locks, bound, ord)->Ok_0;
                    let lst = walk_arms(arms, arms.len() as int, locks, bound, ord)->Ok_0;
                    lemma_recorded_extend(r1, lst, x);
                    assert(inner =~= extend_spec(r1, lst));
                },
                ExprNode::Closure { params, closure_body } => {
                    lemma_acquired_lock_recorded(*closure_body, locks, bound + params.deep_view(), ord, x);
                    assert(inner =~= walk(*closure_body, locks, bound + params.deep_view(), ord)->Ok_0);
                },
                ExprNode::Paren { inner: y } => {
                    lemma_acquired_lock_recorded(*y, locks, bound, ord, x);
                    assert(inner =~= walk(*y, locks, bound, ord)->Ok_0);
                },
                ExprNode::AssignOp { left, right } => {
                    lemma_acquired_lock_recorded(*left, locks, bound, ord, x);
                    lemma_acquired_lock_recorded(*right, locks, bound, ord, x);
                    let r = walk(*right, locks, bound, ord)->Ok_0;
                    let l = walk(*left, locks, bound, ord)->Ok_0;
                    lemma_recorded_extend(r, l, x);
                    assert(inner =~= r + l);
                },
                ExprNode::Range { from, to } => {
                    lemma_opt_recorded(from, locks, bound, ord, x);
                    lemma_opt_recorded(to, locks, bound, ord, x);
                    let rf = walk_opt(from, locks, bound, ord)->Ok_0;
                    let rt = walk_opt(to, locks, bound, ord)->Ok_0;
                    lemma_recorded_extend(rf, rt, x);
                    assert(inner =~= rf + rt);
                },
                ExprNode::Reference { inner: y } => {
                    lemma_acquired_lock_recorded(*y, locks, bound, ord, x);
                    assert(inner =~= walk(*y, locks, bound, ord)->Ok_0);
                },
                ExprNode::Unary { inner: y } => {
                    lemma_acquired_lock_recorded(*y, locks, bound, ord, x);
                    assert(inner =~= walk(*y, locks, bound, ord)->Ok_0);
                },
                _ => {},
            }
            assert(recorded(inner, x));
            lemma_recorded_extend(ord, inner, x);
        }
    }
}

proof fn lemma_stmt_recorded(
    s: StmtNode,
    locks: Seq<LockName>,
    env: Seq<LockName>,
    ord: LockSeqs,
    x: LockName,
)
    ensures
        acquires_stmt(s, locks, env, x) ==> (walk_stmt(s, locks, env, ord) matches Ok(v) ==> recorded(v, x)),
    decreases s, 0int,
{
    match s {
        StmtNode::Local { bindings, init } => {
            if let Some(e) = init {
                lemma_acquired_lock_recorded(e, locks, env, ord, x);
            }
        },
        StmtNode::Trailing { expr } => {
            lemma_acquired_lock_recorded(expr, locks, env, ord, x);
        },
        StmtNode::Semi { expr } => {
            lemma_acquired_lock_recorded(expr, locks, env, ord, x);
        },
        StmtNode::Item => {},
    }
}

proof fn lemma_stmts_recorded(
    stmts: Vec<StmtNode>,
    n: int,
    locks: Seq<LockName>,
    bound: Seq<LockName>,
    ord: LockSeqs,
    x: LockName,
)
    ensures
        acquires_stmts(stmts, n, locks, bound, x) ==> (walk_stmts(stmts, n, locks, bound, ord) matches Ok(
            v,
        ) ==> recorded(v, x)),
    decreases stmts, n,
{
    if 0 < n <= stmts.len() {
        let env = bound + let_bindings(stmts, n - 1);
        lemma_stmts_recorded(stmts, n - 1, locks, bound, ord, x);
        lemma_stmt_recorded(stmts@[n - 1], locks, env, ord, x);
        if let (Ok(prev), Ok(o)) = (walk_stmts(stmts, n - 1, locks, bound, ord), walk_stmt(stmts@[n - 1], locks, env, ord)) {
            if recorded(prev, x) || recorded(o, x) {
                lemma_recorded_extend(prev, o, x);
            }
        }
    }
}

proof fn lemma_args_recorded(
    args: Vec<ExprNode>,
    n: int,
    locks: Seq<LockName>,
    bound: Seq<LockName>,
    ord: LockSeqs,
    x: LockName,
)
    ensures
        acquires_args(args, n, locks, bound, x) ==> (walk_args(args, n, locks, bound, ord) matches Ok(
            (lst, ctr),
        ) ==> recorded(lst, x)),
    decreases args, n,
{
    if 0 < n <= args.len() {
        lemma_args_recorded(args, n - 1, locks, bound, ord, x);
        lemma_acquired_lock_recorded(args@[n - 1], locks, bound, ord, x);
        if let (Ok((lst, c)), Ok(r)) = (walk_args(args, n - 1, locks, bound, ord), walk(args@[n - 1], locks, bound, ord)) {
            if recorded(lst, x) || recorded(r, x) {
                lemma_recorded_extend(lst, r, x);
            }
        }
    }
}

proof fn lemma_arms_recorded(
    arms: Vec<MatchArm>,
    n: int,
    locks: Seq<LockName>,
    bound: Seq<LockName>,
    ord: LockSeqs,
    x: LockName,
)
    ensures
        acquires_arms(arms, n, locks, bound, x) ==> (walk_arms(arms, n, locks, bound, ord) matches Ok(
            lst,
        ) ==> recorded(lst, x)),
    decreases arms, n,
{
    if 0 < n <= arms.len() {
        let env = bound + arms@[n - 1].bindings.deep_view();
        lemma_arms_recorded(arms, n - 1, locks, bound, ord, x);
        lemma_acquired_lock_recorded(arms@[n - 1].body, locks, env, ord, x);
        if let (Ok(lst), Ok(r)) = (walk_arms(arms, n - 1, locks, bound, ord), walk(arms@[n - 1].body, locks, env, ord)) {
            if recorded(lst, x) || recorded(r, x) {
                lemma_recorded_extend(lst, r, x);
            }
        }
    }
}

} // verus!
