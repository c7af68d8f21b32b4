use threads_macro::analysis::{parse_ast, parse_stmts_vec, LockError};
use threads_macro::ast::{MatchArm, ExprNode, StmtNode};
use threads_macro::dsl::{
    add_thread_orderings, check_deadlock_freedom, DeadlockError, LockTable, MacroError, MacroState,
};
use threads_macro::decl::LockDecl;
use threads_macro::orderings::extend_orderings;
use threads_macro::solver::{lock_variables, solve_constraints, Satisfiability};

fn s(x: &str) -> String {
    x.to_string()
}

fn ords(v: &[&[&str]]) -> Vec<Vec<String>> {
    v.iter().map(|o| o.iter().map(|x| s(x)).collect()).collect()
}

fn path(name: &str) -> ExprNode {
    ExprNode::Path { first: s(name), rest: vec![] }
}

fn long_path(segs: &[&str]) -> ExprNode {
    ExprNode::Path { first: s(segs[0]), rest: segs[1..].iter().map(|x| s(x)).collect() }
}

fn method(receiver: ExprNode, name: &str) -> ExprNode {
    ExprNode::MethodCall { receiver: Box::new(receiver), method: s(name) }
}

/// `name.lock().unwrap()`
fn lock(name: &str) -> ExprNode {
    method(method(path(name), "lock"), "unwrap")
}

fn semi(e: ExprNode) -> StmtNode {
    StmtNode::Semi { expr: e }
}

fn let_init(e: ExprNode) -> StmtNode {
    StmtNode::Local { bindings: vec![s("x")], init: Some(e) }
}

fn block(stmts: Vec<StmtNode>) -> ExprNode {
    ExprNode::Block { stmts }
}

fn call(func: ExprNode, args: Vec<ExprNode>) -> ExprNode {
    ExprNode::Call { func: Box::new(func), args }
}

fn reference(e: ExprNode) -> ExprNode {
    ExprNode::Reference { inner: Box::new(e) }
}

fn deref(e: ExprNode) -> ExprNode {
    ExprNode::Unary { inner: Box::new(e) }
}

fn locks(names: &[&str]) -> Vec<String> {
    names.iter().map(|x| s(x)).collect()
}

fn table(names: &[&str]) -> LockTable {
    let mut t = LockTable::new();
    for n in names {
        t.insert(LockDecl { name: s(n), init: s("0") });
    }
    t
}

#[test]
fn extend_orderings_doc_example() {
    let r = extend_orderings(ords(&[&["a", "b"]]), ords(&[&["b"], &["c"]]));
    assert_eq!(r, ords(&[&["a", "b", "b"], &["a", "b", "c"]]));
}

#[test]
fn extend_orderings_empty_sides_are_neutral() {
    assert_eq!(extend_orderings(ords(&[&["a"]]), vec![]), ords(&[&["a"]]));
    assert_eq!(extend_orderings(vec![], ords(&[&["b"], &["c"]])), ords(&[&["b"], &["c"]]));
    assert_eq!(extend_orderings(vec![], vec![]), Vec::<Vec<String>>::new());
}

#[test]
fn extend_orderings_row_major_product() {
    let r = extend_orderings(ords(&[&["a"], &["b"]]), ords(&[&["c"], &["d"], &["e"]]));
    assert_eq!(r.len(), 6);
    // position a * |second| + b holds first[a] ++ second[b]
    assert_eq!(r[1 * 3 + 2], vec![s("b"), s("e")]);
    assert_eq!(
        r,
        ords(&[&["a", "c"], &["a", "d"], &["a", "e"], &["b", "c"], &["b", "d"], &["b", "e"]])
    );
}

#[test]
fn extend_orderings_is_associative_on_example() {
    let a = ords(&[&["a"], &["b"]]);
    let b = ords(&[&["c"]]);
    let c = ords(&[&["d"], &["e"]]);
    let left = extend_orderings(extend_orderings(a.clone(), b.clone()), c.clone());
    let right = extend_orderings(a, extend_orderings(b, c));
    assert_eq!(left, right);
}

#[test]
fn lock_call_on_declared_lock_is_recorded() {
    let r = parse_ast(&lock("a"), &locks(&["a", "b"]), &vec![]).unwrap();
    assert_eq!(r, ords(&[&["a"]]));
}

#[test]
fn lock_call_on_undeclared_receiver_is_refused() {
    let r = parse_ast(&lock("z"), &locks(&["a"]), &vec![]);
    assert_eq!(r, Err(LockError::UndeclaredLock));
    let r = parse_ast(&method(call(path("f"), vec![]), "lock"), &locks(&["a"]), &vec![]);
    assert_eq!(r, Err(LockError::UndeclaredLock));
}

#[test]
fn other_methods_do_not_acquire() {
    let r = parse_ast(&method(path("a"), "clone"), &locks(&["a"]), &vec![]).unwrap();
    assert!(r.is_empty());
}

#[test]
fn orderings_in_front_are_kept() {
    let r = parse_ast(&ExprNode::Lit, &locks(&["a"]), &ords(&[&["x"]])).unwrap();
    assert_eq!(r, ords(&[&["x"]]));
    let r = parse_ast(&lock("a"), &locks(&["a"]), &ords(&[&["x"]])).unwrap();
    assert_eq!(r, ords(&[&["x"], &["x"], &["x"], &["a"]]));
}

#[test]
fn sequential_statements_multiply() {
    let b = block(vec![semi(lock("a")), let_init(lock("b"))]);
    let r = parse_ast(&b, &locks(&["a", "b"]), &vec![]).unwrap();
    assert_eq!(r, ords(&[&["a", "b"]]));
}

#[test]
fn statements_without_locks_contribute_nothing() {
    let stmts = vec![StmtNode::Item, StmtNode::Local { bindings: vec![s("y")], init: None }, StmtNode::Trailing { expr: ExprNode::Lit }];
    let r = parse_stmts_vec(&stmts, &locks(&["a"]), &vec![]).unwrap();
    assert!(r.is_empty());
}

#[test]
fn match_run_pass_scenario() {
    // a.lock().unwrap(); match Some(0) { Some(_) => { let mut temp = b.lock().unwrap(); *temp += 10; },
    //                                   None => { let mut temp = c.lock().unwrap(); *temp += 10; } }
    let arm = |l: &str| MatchArm {
        bindings: vec![],
        body: block(vec![
            let_init(lock(l)),
            semi(ExprNode::AssignOp { left: Box::new(deref(path("temp"))), right: Box::new(ExprNode::Lit) }),
        ]),
    };
    let m = ExprNode::Match {
        scrutinee: Box::new(call(path("Some"), vec![ExprNode::Lit])),
        arms: vec![arm("b"), arm("c")],
    };
    let b = block(vec![semi(lock("a")), StmtNode::Trailing { expr: m }]);
    let r = parse_ast(&b, &locks(&["a", "b", "c"]), &vec![]).unwrap();
    assert_eq!(r, ords(&[&["a", "b"], &["a", "c"]]));
    assert_eq!(check_deadlock_freedom(&r), Ok(()));
}

#[test]
fn if_lists_both_branches_after_condition() {
    let e = ExprNode::If {
        cond: Box::new(ExprNode::Lit),
        then_branch: vec![semi(lock("a")), semi(lock("b"))],
        else_branch: Some(Box::new(block(vec![semi(lock("b"))]))),
    };
    let r = parse_ast(&e, &locks(&["a", "b"]), &vec![]).unwrap();
    assert_eq!(r, ords(&[&["a", "b"], &["b"]]));
}

#[test]
fn if_without_else() {
    let e = ExprNode::If {
        cond: Box::new(lock("a")),
        then_branch: vec![semi(lock("b"))],
        else_branch: None,
    };
    let r = parse_ast(&e, &locks(&["a", "b"]), &vec![]).unwrap();
    assert_eq!(r, ords(&[&["a"], &["b"], &["a"]]));
}

#[test]
fn loops_and_closures_are_walked() {
    let w = ExprNode::While { cond: Box::new(lock("a")), body: vec![semi(lock("b"))] };
    assert_eq!(parse_ast(&w, &locks(&["a", "b"]), &vec![]).unwrap(), ords(&[&["a"], &["b"]]));
    let l = ExprNode::Loop { body: vec![semi(lock("a")), semi(lock("b"))] };
    assert_eq!(parse_ast(&l, &locks(&["a", "b"]), &vec![]).unwrap(), ords(&[&["a", "b"]]));
    let f = ExprNode::ForLoop {
        bindings: vec![s("i")],
        iter: Box::new(ExprNode::Range { from: Some(Box::new(ExprNode::Lit)), to: Some(Box::new(ExprNode::Lit)) }),
        body: vec![semi(lock("a"))],
    };
    assert_eq!(parse_ast(&f, &locks(&["a"]), &vec![]).unwrap(), ords(&[&["a"]]));
    let c = ExprNode::Closure { params: vec![s("x")], closure_body: Box::new(ExprNode::Paren { inner: Box::new(lock("a")) }) };
    assert_eq!(parse_ast(&c, &locks(&["a"]), &vec![]).unwrap(), ords(&[&["a"]]));
}

#[test]
fn single_lock_argument_is_accepted() {
    // increment_ten(&mut *a.lock().unwrap());
    let c = call(path("increment_ten"), vec![reference(deref(lock("a")))]);
    let r = parse_ast(&c, &locks(&["a", "b"]), &vec![]).unwrap();
    assert_eq!(r, ords(&[&["a"]]));
}

#[test]
fn two_lock_arguments_are_refused() {
    // increment_ten(&mut *a.lock().unwrap(), &*b.lock().unwrap());
    let c = call(
        path("increment_ten"),
        vec![reference(deref(lock("a"))), reference(deref(lock("b")))],
    );
    let r = parse_ast(&c, &locks(&["a", "b", "c"]), &vec![]);
    assert_eq!(r, Err(LockError::MultipleLockArguments));
}

#[test]
fn one_argument_with_two_orderings_is_refused() {
    let arg = ExprNode::If {
        cond: Box::new(ExprNode::Lit),
        then_branch: vec![semi(lock("a"))],
        else_branch: Some(Box::new(block(vec![semi(lock("a"))]))),
    };
    let r = parse_ast(&call(path("f"), vec![arg]), &locks(&["a"]), &vec![]);
    assert_eq!(r, Err(LockError::MultipleLockArguments));
}

#[test]
fn arc_clone_calls_are_refused() {
    let c = call(long_path(&["Arc", "clone"]), vec![reference(path("a"))]);
    assert_eq!(parse_ast(&c, &locks(&["a"]), &vec![]), Err(LockError::ArcCloneCall));
    let c = call(long_path(&["std", "sync", "Arc", "clone"]), vec![]);
    assert_eq!(parse_ast(&c, &locks(&["a"]), &vec![]), Err(LockError::ArcCloneCall));
    // `clone` not directly after `Arc` is allowed
    let c = call(long_path(&["Arc", "new", "clone"]), vec![]);
    assert_eq!(parse_ast(&c, &locks(&["a"]), &vec![]), Ok(vec![]));
}

#[test]
fn indirect_calls_are_refused() {
    let c = call(ExprNode::Paren { inner: Box::new(path("f")) }, vec![]);
    assert_eq!(parse_ast(&c, &locks(&["a"]), &vec![]), Err(LockError::IndirectCall));
}

#[test]
fn unsupported_expressions_are_refused() {
    let b = block(vec![
        semi(lock("a")),
        semi(ExprNode::Unsupported),
        semi(ExprNode::Unsupported),
    ]);
    let r = parse_ast(&b, &locks(&["a"]), &vec![]);
    assert_eq!(r, Err(LockError::UnsupportedExpression));
}

#[test]
fn first_refusal_wins() {
    let b = block(vec![
        semi(call(long_path(&["Arc", "clone"]), vec![])),
        semi(ExprNode::Unsupported),
    ]);
    assert_eq!(parse_ast(&b, &locks(&["a"]), &vec![]), Err(LockError::ArcCloneCall));
}

#[test]
fn lock_variables_in_first_occurrence_order() {
    let v = lock_variables(&ords(&[&["b", "a"], &["a", "c", "b"]]));
    assert_eq!(v, locks(&["b", "a", "c"]));
}

#[test]
fn consistent_orderings_are_satisfiable() {
    let r = solve_constraints(&ords(&[&["a", "b"], &["a", "c"], &["b", "c"]]));
    assert_eq!(r, Satisfiability::Sat);
    assert_eq!(solve_constraints(&vec![]), Satisfiability::Sat);
}

#[test]
fn reacquiring_first_lock_is_unsatisfiable() {
    // let mut data = a.lock().unwrap(); let data2 = a.lock().unwrap();
    let r = solve_constraints(&ords(&[&["a"], &["a", "a"]]));
    assert_eq!(r, Satisfiability::Unsat);
}

#[test]
fn each_lock_is_ordered_before_the_next() {
    // [a, b, c] asks a < b and b < c, which [c, b] contradicts
    let r = solve_constraints(&ords(&[&["a", "b", "c"], &["c", "b"]]));
    assert_eq!(r, Satisfiability::Unsat);
    // [a, b, c] and [a, c] agree
    let r = solve_constraints(&ords(&[&["a", "b", "c"], &["a", "c"]]));
    assert_eq!(r, Satisfiability::Sat);
}

#[test]
fn lock_taken_again_later_is_a_potential_deadlock() {
    let r = check_deadlock_freedom(&ords(&[&["a", "b", "a"]]));
    assert_eq!(r, Err(DeadlockError::PotentialDeadlock));
}

#[test]
fn opposite_orders_are_a_potential_deadlock() {
    let r = check_deadlock_freedom(&ords(&[&["a", "b"], &["b", "a"]]));
    assert_eq!(r, Err(DeadlockError::PotentialDeadlock));
}

#[test]
fn dining_philosophers_cycle_is_a_potential_deadlock() {
    let t = table(&["a", "b", "c", "d", "e"]);
    let mut orderings = vec![];
    for (x, y) in [("a", "b"), ("b", "c"), ("c", "d"), ("d", "e"), ("e", "a")] {
        let thread = block(vec![StmtNode::Trailing {
            expr: ExprNode::Loop { body: vec![semi(lock(x)), semi(lock(y))] },
        }]);
        add_thread_orderings(&mut orderings, &t, &thread).unwrap();
    }
    assert_eq!(orderings.len(), 5);
    assert_eq!(check_deadlock_freedom(&orderings), Err(DeadlockError::PotentialDeadlock));
}

#[test]
fn two_threads_same_order_are_accepted() {
    let t = table(&["a", "b", "c"]);
    let mut orderings = vec![];
    for _ in 0..2 {
        let thread = block(vec![semi(lock("a")), semi(lock("b"))]);
        add_thread_orderings(&mut orderings, &t, &thread).unwrap();
    }
    assert_eq!(orderings, ords(&[&["a", "b"], &["a", "b"]]));
    assert_eq!(check_deadlock_freedom(&orderings), Ok(()));
}

#[test]
fn refused_thread_leaves_orderings_unchanged() {
    let t = table(&["a"]);
    let mut orderings = ords(&[&["a"]]);
    let thread = block(vec![semi(ExprNode::Unsupported)]);
    let r = add_thread_orderings(&mut orderings, &t, &thread);
    assert_eq!(r, Err(LockError::UnsupportedExpression));
    assert_eq!(orderings, ords(&[&["a"]]));
}

#[test]
fn if_tests_run_pass_scenario() {
    // two threads: if true { a; b } else { a; b }
    let t = table(&["a", "b", "c"]);
    let mut orderings = vec![];
    for _ in 0..2 {
        let thread = block(vec![StmtNode::Trailing {
            expr: ExprNode::If {
                cond: Box::new(ExprNode::Lit),
                then_branch: vec![semi(lock("a")), semi(lock("b"))],
                else_branch: Some(Box::new(block(vec![semi(lock("a")), semi(lock("b"))]))),
            },
        }]);
        add_thread_orderings(&mut orderings, &t, &thread).unwrap();
    }
    assert_eq!(orderings, ords(&[&["a", "b"], &["a", "b"], &["a", "b"], &["a", "b"]]));
    assert_eq!(check_deadlock_freedom(&orderings), Ok(()));
}

#[test]
fn reacquiring_the_same_lock_is_a_potential_deadlock() {
    // let mut data = a.lock().unwrap(); let data2 = a.lock().unwrap();
    let t = table(&["a", "b", "c"]);
    let mut orderings = vec![];
    let thread = block(vec![let_init(lock("a")), let_init(lock("a"))]);
    add_thread_orderings(&mut orderings, &t, &thread).unwrap();
    assert_eq!(orderings, ords(&[&["a", "a"]]));
    assert_eq!(check_deadlock_freedom(&orderings), Err(DeadlockError::PotentialDeadlock));
}

#[test]
fn single_fn_call_arg_run_pass_scenario() {
    let t = table(&["a", "b", "c"]);
    let mut orderings = vec![];
    let t1 = block(vec![semi(call(path("increment_ten"), vec![reference(deref(lock("a")))]))]);
    let t2 = block(vec![
        let_init(lock("a")),
        semi(call(path("increment_ten"), vec![reference(deref(path("data")))])),
    ]);
    add_thread_orderings(&mut orderings, &t, &t1).unwrap();
    add_thread_orderings(&mut orderings, &t, &t2).unwrap();
    assert_eq!(orderings, ords(&[&["a"], &["a"]]));
    assert_eq!(check_deadlock_freedom(&orderings), Ok(()));
}

#[test]
fn undeclared_locks_are_refused() {
    let t = table(&["a"]);
    let mut orderings = vec![];
    let thread = block(vec![semi(lock("a")), semi(lock("y"))]);
    assert_eq!(add_thread_orderings(&mut orderings, &t, &thread), Err(LockError::UndeclaredLock));
    assert!(orderings.is_empty());
}

#[test]
fn arc_clone3_compile_fail_scenario() {
    // let test = a.clone(); let test1 = test.lock().unwrap(); let test2 = a.lock().unwrap();
    let thread = block(vec![
        StmtNode::Local { bindings: vec![s("test")], init: Some(method(path("a"), "clone")) },
        StmtNode::Local { bindings: vec![s("test1")], init: Some(lock("test")) },
        StmtNode::Local { bindings: vec![s("test2")], init: Some(lock("a")) },
    ]);
    let r = parse_ast(&thread, &locks(&["a", "b", "c", "d", "e"]), &vec![]);
    assert_eq!(r, Err(LockError::UndeclaredLock));
}

#[test]
fn let_binding_lock_compile_fail_scenario() {
    // let test1 = lock_clone(&a); let test2 = test1.lock().unwrap(); let test3 = a.lock().unwrap();
    let thread = block(vec![
        StmtNode::Local { bindings: vec![s("test1")], init: Some(call(path("lock_clone"), vec![reference(path("a"))])) },
        StmtNode::Local { bindings: vec![s("test2")], init: Some(lock("test1")) },
        StmtNode::Local { bindings: vec![s("test3")], init: Some(lock("a")) },
    ]);
    let r = parse_ast(&thread, &locks(&["a"]), &vec![]);
    assert_eq!(r, Err(LockError::UndeclaredLock));
}

#[test]
fn binding_a_lock_to_a_new_name_is_refused() {
    // let x = a;
    let thread = block(vec![StmtNode::Local { bindings: vec![s("x")], init: Some(path("a")) }]);
    assert_eq!(parse_ast(&thread, &locks(&["a"]), &vec![]), Err(LockError::LockBinding));
    let thread = block(vec![StmtNode::Local { bindings: vec![s("x")], init: Some(reference(path("a"))) }]);
    assert_eq!(parse_ast(&thread, &locks(&["a"]), &vec![]), Err(LockError::LockBinding));
}

#[test]
fn shadowed_lock_name_is_no_lock() {
    // let a = 5; a.lock()
    let thread = block(vec![
        StmtNode::Local { bindings: vec![s("a")], init: Some(ExprNode::Lit) },
        semi(lock("a")),
    ]);
    assert_eq!(parse_ast(&thread, &locks(&["a"]), &vec![]), Err(LockError::UndeclaredLock));
}

#[test]
fn creating_a_mutex_is_refused() {
    let c = call(long_path(&["Mutex", "new"]), vec![ExprNode::Lit]);
    assert_eq!(parse_ast(&c, &locks(&["a"]), &vec![]), Err(LockError::NewMutex));
    let c = call(long_path(&["std", "sync", "Mutex", "new"]), vec![ExprNode::Lit]);
    assert_eq!(parse_ast(&c, &locks(&["a"]), &vec![]), Err(LockError::NewMutex));
}

#[test]
fn calling_a_let_bound_value_is_refused() {
    // let f = get_fn(); f(1);
    let thread = block(vec![
        StmtNode::Local { bindings: vec![s("f")], init: Some(call(path("get_fn"), vec![])) },
        semi(call(path("f"), vec![ExprNode::Lit])),
    ]);
    assert_eq!(parse_ast(&thread, &locks(&["a"]), &vec![]), Err(LockError::IndirectCall));
    // a closure parameter is a local binding too
    let c = ExprNode::Closure { params: vec![s("g")], closure_body: Box::new(call(path("g"), vec![])) };
    assert_eq!(parse_ast(&c, &locks(&["a"]), &vec![]), Err(LockError::IndirectCall));
}

#[test]
fn multi_arg_compile_fail_scenario() {
    // acquire(&a, &b);
    let c = call(path("acquire"), vec![reference(path("a")), reference(path("b"))]);
    assert_eq!(parse_ast(&c, &locks(&["a", "b", "c"]), &vec![]), Err(LockError::MultipleLockArguments));
    // one lock reference is fine
    let c = call(path("acquire"), vec![reference(path("a")), ExprNode::Lit]);
    assert_eq!(parse_ast(&c, &locks(&["a", "b", "c"]), &vec![]), Ok(vec![]));
}

#[test]
fn nested_macros_and_ranges_are_accepted() {
    // { println!(); a.lock().unwrap(); for _ in 0..1000 { a.lock().unwrap(); } }
    let thread = block(vec![
        semi(ExprNode::Macro),
        semi(lock("a")),
        StmtNode::Trailing {
            expr: ExprNode::ForLoop {
                bindings: vec![],
                iter: Box::new(ExprNode::Range { from: Some(Box::new(ExprNode::Lit)), to: Some(Box::new(ExprNode::Lit)) }),
                body: vec![semi(lock("a"))],
            },
        },
    ]);
    let r = parse_ast(&thread, &locks(&["a"]), &vec![]).unwrap();
    assert_eq!(r, ords(&[&["a", "a"]]));
}

#[test]
fn macro_state_accepts_declared_consistent_threads() {
    let mut st = MacroState::new();
    st.declare(vec![LockDecl { name: s("a"), init: s("0") }, LockDecl { name: s("b"), init: s("0") }]).unwrap();
    assert!(st.declared);
    let t1 = block(vec![semi(lock("a")), semi(lock("b"))]);
    assert_eq!(st.add_thread(&t1), Ok(()));
    assert_eq!(st.orderings, ords(&[&["a", "b"]]));
    assert_eq!(st.finish(), Ok(()));
}

#[test]
fn macro_state_refuses_thread_before_declaration() {
    let mut st = MacroState::new();
    let t1 = block(vec![semi(call(path("work"), vec![ExprNode::Lit]))]);
    assert_eq!(st.add_thread(&t1), Err(MacroError::MissingLockDeclaration));
    // nothing is declared, so no lock can be acquired
    let t2 = block(vec![semi(lock("a"))]);
    assert_eq!(st.add_thread(&t2), Err(MacroError::Lock(LockError::UndeclaredLock)));
    assert!(st.orderings.is_empty());
    assert_eq!(st.finish(), Err(MacroError::MissingLockDeclaration));
}

#[test]
fn macro_state_reports_refused_block_and_deadlock() {
    let mut st = MacroState::new();
    st.declare(vec![LockDecl { name: s("a"), init: s("0") }, LockDecl { name: s("b"), init: s("0") }]).unwrap();
    let bad = block(vec![semi(call(long_path(&["Arc", "clone"]), vec![reference(path("a"))]))]);
    assert_eq!(st.add_thread(&bad), Err(MacroError::Lock(LockError::ArcCloneCall)));
    st.add_thread(&block(vec![semi(lock("a")), semi(lock("b"))])).unwrap();
    st.add_thread(&block(vec![semi(lock("b")), semi(lock("a"))])).unwrap();
    assert_eq!(
        st.finish(),
        Err(MacroError::Deadlock(DeadlockError::PotentialDeadlock))
    );
}

#[test]
fn verdict_for_each_solver_answer() {
    assert_eq!(threads_macro::dsl::verdict_of(Satisfiability::Sat), Ok(()));
    assert_eq!(
        threads_macro::dsl::verdict_of(Satisfiability::Unsat),
        Err(DeadlockError::PotentialDeadlock)
    );
    assert_eq!(
        threads_macro::dsl::verdict_of(Satisfiability::Unknown),
        Err(DeadlockError::SolverUnknown)
    );
}

#[test]
fn block_walk_equals_extended_parts() {
    let all = vec![semi(lock("a")), semi(lock("b")), semi(lock("c"))];
    let head = vec![semi(lock("a")), semi(lock("b"))];
    let tail = vec![semi(lock("c"))];
    let l = locks(&["a", "b", "c"]);
    let whole = parse_stmts_vec(&all, &l, &vec![]).unwrap();
    let parts = extend_orderings(parse_stmts_vec(&head, &l, &vec![]).unwrap(), parse_stmts_vec(&tail, &l, &vec![]).unwrap());
    assert_eq!(whole, parts);
    assert_eq!(whole, ords(&[&["a", "b", "c"]]));
}

fn first_list() -> Vec<StmtNode> {
    vec![
        semi(lock("a")),
        StmtNode::Semi {
            expr: ExprNode::If {
                cond: Box::new(path("c")),
                then_branch: vec![semi(lock("b"))],
                else_branch: None,
            },
        },
    ]
}

fn second_list() -> Vec<StmtNode> {
    vec![let_init(ExprNode::Lit), semi(lock("c"))]
}

#[test]
fn statement_lists_walked_one_after_the_other() {
    let l = locks(&["a", "b", "c"]);
    let mut all = first_list();
    all.extend(second_list());
    let whole = parse_stmts_vec(&all, &l, &vec![]).unwrap();
    let first = parse_stmts_vec(&first_list(), &l, &vec![]).unwrap();
    let second = parse_stmts_vec(&second_list(), &l, &vec![]).unwrap();
    assert_eq!(first, ords(&[&["a", "b"]]));
    assert_eq!(second, ords(&[&["c"]]));
    assert_eq!(whole, extend_orderings(first, second));
    assert_eq!(whole, ords(&[&["a", "b", "c"]]));
}
