use threads_macro::analysis::LockError;
use threads_macro::dsl::{outcome, DeadlockError, MacroError, MacroState};
use threads_macro::decl::{parse_lock_decls, split_at_commas, DeclError, DeclPatterns, LockDecl};
use threads_macro::dsl::{classify_arg, LockTable, MacroArg};
use threads_macro::ast::{ExprNode, StmtNode};
use threads_macro::syntax::model_of_expr;

fn s(x: &str) -> String {
    x.to_string()
}

fn decl(name: &str, init: &str) -> LockDecl {
    LockDecl { name: s(name), init: s(init) }
}

#[test]
fn split_at_commas_like_str_split() {
    assert_eq!(split_at_commas("a(0), b(1),c"), vec![s("a(0)"), s(" b(1)"), s("c")]);
    assert_eq!(split_at_commas(""), vec![s("")]);
    assert_eq!(split_at_commas(","), vec![s(""), s("")]);
    assert_eq!(split_at_commas("x,,y,"), vec![s("x"), s(""), s("y"), s("")]);
}

#[test]
fn patterns_compile() {
    assert!(DeclPatterns::new().is_ok());
}

#[test]
fn lock_section_is_parsed() {
    let p = DeclPatterns::new().unwrap();
    let r = parse_lock_decls(&p, "{ locks = { a (0 as u64) , b (0) , c (0) } }").unwrap();
    assert_eq!(r, Some(vec![decl("a", "0 as u64"), decl("b", "0"), decl("c", "0")]));
}

#[test]
fn compact_lock_section_is_parsed() {
    let p = DeclPatterns::new().unwrap();
    let r = parse_lock_decls(&p, "{locks = {a(0)}}").unwrap();
    assert_eq!(r, Some(vec![decl("a", "0")]));
}

#[test]
fn initial_value_stops_at_first_closing_parenthesis() {
    let p = DeclPatterns::new().unwrap();
    let r = parse_lock_decls(&p, "{locks = {v(Vec::new())}}").unwrap();
    assert_eq!(r, Some(vec![decl("v", "Vec::new(")]));
}

#[test]
fn other_text_is_no_lock_section() {
    let p = DeclPatterns::new().unwrap();
    assert_eq!(parse_lock_decls(&p, "{ a . lock () . unwrap () ; }"), Ok(None));
}

#[test]
fn entry_without_parentheses_is_refused() {
    let p = DeclPatterns::new().unwrap();
    assert_eq!(parse_lock_decls(&p, "{locks = {a(0), b}}"), Err(DeclError::MalformedDeclaration));
}

#[test]
fn empty_entry_is_refused() {
    let p = DeclPatterns::new().unwrap();
    assert_eq!(parse_lock_decls(&p, "{locks = {a(0),}}"), Err(DeclError::MalformedDeclaration));
    assert_eq!(parse_lock_decls(&p, "{locks = {}}"), Err(DeclError::MalformedDeclaration));
}

#[test]
fn entry_without_name_declares_empty_name() {
    let p = DeclPatterns::new().unwrap();
    assert_eq!(parse_lock_decls(&p, "{locks = {(7)}}"), Ok(Some(vec![decl("", "7")])));
}

#[test]
fn arguments_are_classified() {
    let p = DeclPatterns::new().unwrap();
    assert_eq!(
        classify_arg(&p, "{ locks = { a (0) } }"),
        Ok(MacroArg::LockDecls { decls: vec![decl("a", "0")] })
    );
    assert_eq!(classify_arg(&p, ","), Ok(MacroArg::Separator));
    assert_eq!(classify_arg(&p, "{ a . lock () ; }"), Ok(MacroArg::ThreadBlock));
    assert_eq!(classify_arg(&p, "{ locks = { a } }"), Err(DeclError::MalformedDeclaration));
}

#[test]
fn later_declaration_replaces_earlier() {
    let mut t = LockTable::new();
    t.insert_all(vec![decl("a", "0"), decl("b", "1"), decl("a", "2")]);
    assert_eq!(t.names(), vec![s("a"), s("b")]);
    assert_eq!(t.decls(), &vec![decl("a", "2"), decl("b", "1")]);
}

#[test]
fn split_pieces_join_back() {
    let text = "a(1), b(2),,c";
    let pieces = split_at_commas(text);
    assert!(pieces.iter().all(|p| !p.contains(',')));
    assert_eq!(pieces.join(","), text);
}


fn declared(names: &[&str]) -> MacroState {
    let mut st = MacroState::new();
    st.declare(names.iter().map(|n| decl(n, "0")).collect()).unwrap();
    st
}

fn ords(v: &[&[&str]]) -> Vec<Vec<String>> {
    v.iter().map(|o| o.iter().map(|x| s(x)).collect()).collect()
}

#[test]
fn block_text_is_parsed_and_walked() {
    let mut st = declared(&["a", "b"]);
    assert_eq!(st.add_block_text("{ a.lock().unwrap(); b.lock().unwrap(); }"), Ok(()));
    assert_eq!(st.orderings, ords(&[&["a", "b"]]));
    assert_eq!(st.finish(), Ok(()));
}

#[test]
fn readme_loop_example_is_accepted() {
    let mut st = declared(&["a"]);
    let block = "{ for _ in 0..1000 { let mut data = a.lock().unwrap(); *data += 100; } }";
    assert_eq!(st.add_block_text(block), Ok(()));
    assert_eq!(st.add_block_text(block), Ok(()));
    assert_eq!(st.orderings, ords(&[&["a"], &["a"]]));
    assert_eq!(st.finish(), Ok(()));
}

#[test]
fn readme_function_call_example_is_accepted() {
    let mut st = declared(&["a", "b", "c"]);
    assert_eq!(st.add_block_text("{ increment_ten(&mut *a.lock().unwrap()); }"), Ok(()));
    assert_eq!(st.add_block_text("{ let mut data = a.lock().unwrap(); increment_ten(&mut *data); }"), Ok(()));
    assert_eq!(st.finish(), Ok(()));
}

#[test]
fn nested_macro_in_block_text_is_accepted() {
    let mut st = declared(&["a"]);
    assert_eq!(st.add_block_text("{ println!(\"think\"); let x = format!(\"{}\", 1); a.lock().unwrap(); }"), Ok(()));
    assert_eq!(st.orderings, ords(&[&["a"]]));
}

#[test]
fn block_text_rules_are_enforced() {
    let mut st = declared(&["a", "b", "c"]);
    assert_eq!(st.add_block_text("{ test.lock().unwrap(); }"), Err(MacroError::Lock(LockError::UndeclaredLock)));
    assert_eq!(st.add_block_text("{ let x = a; x.lock().unwrap(); }"), Err(MacroError::Lock(LockError::LockBinding)));
    assert_eq!(st.add_block_text("{ let f = get_fn(); f(1); }"), Err(MacroError::Lock(LockError::IndirectCall)));
    assert_eq!(st.add_block_text("{ acquire(&a, &b); }"), Err(MacroError::Lock(LockError::MultipleLockArguments)));
    assert_eq!(st.add_block_text("{ let m = Mutex::new(0); }"), Err(MacroError::Lock(LockError::NewMutex)));
    assert_eq!(st.add_block_text("{ let c = Arc::clone(&a); }"), Err(MacroError::Lock(LockError::ArcCloneCall)));
    assert_eq!(
        st.add_block_text("{ let test = a.clone(); let test1 = test.lock().unwrap(); }"),
        Err(MacroError::Lock(LockError::UndeclaredLock))
    );
    assert!(st.orderings.is_empty());
}

#[test]
fn match_arm_bindings_shadow_locks() {
    let mut st = declared(&["a", "b"]);
    assert_eq!(
        st.add_block_text("{ match x { Some(a) => { a.lock().unwrap(); } None => {} } }"),
        Err(MacroError::Lock(LockError::UndeclaredLock))
    );
    assert_eq!(
        st.add_block_text("{ match x { Some(_) => { a.lock().unwrap(); } None => { b.lock().unwrap(); } } }"),
        Ok(())
    );
    assert_eq!(st.orderings, ords(&[&["a"], &["b"]]));
}

#[test]
fn unparsable_block_text_is_refused() {
    let mut st = declared(&["a"]);
    assert_eq!(st.add_block_text("{ let = ; }"), Err(MacroError::UnparsableBlock));
    assert!(st.orderings.is_empty());
}

#[test]
fn unparsable_initial_value_is_refused() {
    let mut st = MacroState::new();
    assert_eq!(st.declare(vec![decl("a", "0"), decl("v", "Vec::new(")]), Err(MacroError::UnparsableInitialValue));
    let mut st = MacroState::new();
    assert_eq!(st.declare(vec![decl("a", "0 as u64"), decl("v", "Vec::new()")]), Ok(()));
}

#[test]
fn consecutive_locks_in_opposite_orders_deadlock() {
    let mut st = declared(&["a", "b", "c"]);
    st.add_block_text("{ a.lock().unwrap(); b.lock().unwrap(); c.lock().unwrap(); }").unwrap();
    st.add_block_text("{ c.lock().unwrap(); b.lock().unwrap(); }").unwrap();
    assert_eq!(st.finish(), Err(MacroError::Deadlock(DeadlockError::PotentialDeadlock)));
}

#[test]
fn dining_philosophers_text_deadlocks() {
    let mut st = declared(&["a", "b", "c", "d", "e"]);
    for (x, y) in [("a", "b"), ("b", "c"), ("c", "d"), ("d", "e"), ("e", "a")] {
        let block = format!(
            "{{ loop {{ println!(\"think\"); {}.lock().unwrap(); {}.lock().unwrap(); println!(\"eat\"); sleep(1000); }} }}",
            x, y
        );
        assert_eq!(st.add_block_text(&block), Ok(()));
    }
    assert_eq!(st.finish(), Err(MacroError::Deadlock(DeadlockError::PotentialDeadlock)));
}

#[test]
fn outcome_for_each_verdict() {
    assert_eq!(outcome(true, Ok(())), Ok(()));
    assert_eq!(outcome(false, Ok(())), Err(MacroError::MissingLockDeclaration));
    assert_eq!(outcome(false, Err(DeadlockError::SolverUnknown)), Err(MacroError::Deadlock(DeadlockError::SolverUnknown)));
}

#[test]
fn unsafe_block_text_is_refused() {
    let mut st = declared(&["a"]);
    assert_eq!(
        st.add_block_text("{ unsafe { a.lock().unwrap(); } }"),
        Err(MacroError::Lock(LockError::UnsafeBlock))
    );
    assert!(st.orderings.is_empty());
}

#[test]
fn binary_expression_text_is_unsupported() {
    let mut st = declared(&["a"]);
    assert_eq!(
        st.add_block_text("{ let x = 1 + 2; }"),
        Err(MacroError::Lock(LockError::UnsupportedExpression))
    );
}

fn parsed(text: &str) -> ExprNode {
    let e = syn::parse_str::<syn::Expr>(text).unwrap();
    model_of_expr(&e, usize::MAX)
}

#[test]
fn method_call_is_converted_with_its_name_and_receiver() {
    match parsed("a.lock()") {
        ExprNode::MethodCall { receiver, method } => {
            assert_eq!(method, "lock");
            match *receiver {
                ExprNode::Path { first, rest } => {
                    assert_eq!(first, "a");
                    assert!(rest.is_empty());
                }
                other => panic!("receiver {:?}", other),
            }
        }
        other => panic!("converted to {:?}", other),
    }
}

#[test]
fn path_keeps_all_segments() {
    match parsed("std::sync::Arc::clone") {
        ExprNode::Path { first, rest } => {
            assert_eq!(first, "std");
            assert_eq!(rest, vec![s("sync"), s("Arc"), s("clone")]);
        }
        other => panic!("converted to {:?}", other),
    }
}

#[test]
fn let_pattern_bindings_are_listed_in_order() {
    match parsed("{ let (x, Some(y), Point { z, .. }, _, ref w @ 3) = v; }") {
        ExprNode::Block { stmts } => match &stmts[0] {
            StmtNode::Local { bindings, init } => {
                assert_eq!(bindings, &vec![s("x"), s("y"), s("z"), s("w")]);
                assert!(matches!(init, Some(ExprNode::Path { .. })));
            }
            other => panic!("statement {:?}", other),
        },
        other => panic!("converted to {:?}", other),
    }
}

#[test]
fn kinds_are_converted_one_for_one() {
    assert!(matches!(parsed("unsafe { f() }"), ExprNode::Unsafe));
    assert!(matches!(parsed("1 + 2"), ExprNode::Unsupported));
    assert!(matches!(parsed("x as u64"), ExprNode::Unsupported));
    assert!(matches!(parsed("println!(\"x\")"), ExprNode::Macro));
    assert!(matches!(parsed("0..10"), ExprNode::Range { from: Some(_), to: Some(_) }));
    assert!(matches!(parsed("*x"), ExprNode::Unary { .. }));
    assert!(matches!(parsed("&mut x"), ExprNode::Reference { .. }));
    assert!(matches!(parsed("x += 1"), ExprNode::AssignOp { .. }));
    assert!(matches!(parsed("(x)"), ExprNode::Paren { .. }));
    assert!(matches!(parsed("loop { }"), ExprNode::Loop { .. }));
    assert!(matches!(parsed("while c { }"), ExprNode::While { .. }));
    assert!(matches!(parsed("|p| p"), ExprNode::Closure { .. }));
    assert!(matches!(parsed("f(1, 2)"), ExprNode::Call { ref args, .. } if args.len() == 2));
    assert!(matches!(parsed("if c { } else { }"), ExprNode::If { else_branch: Some(_), .. }));
    assert!(matches!(parsed("for i in v { }"), ExprNode::ForLoop { ref bindings, .. } if bindings == &vec![s("i")]));
    assert!(matches!(parsed("match x { Some(a) => a, _ => 0 }"), ExprNode::Match { ref arms, .. } if arms.len() == 2 && arms[0].bindings == vec![s("a")] && arms[1].bindings.is_empty()));
}

#[test]
fn shallow_fuel_reads_only_the_top() {
    let e = syn::parse_str::<syn::Expr>("(a.lock())").unwrap();
    assert!(matches!(model_of_expr(&e, 0), ExprNode::Unsupported));
    match model_of_expr(&e, 1) {
        ExprNode::Paren { inner } => assert!(matches!(*inner, ExprNode::Unsupported)),
        other => panic!("converted to {:?}", other),
    }
}

#[test]
fn entries_are_trimmed_of_unicode_white_space() {
    let p = DeclPatterns::new().unwrap();
    let r = parse_lock_decls(&p, "{locks = {\u{3000}a(0),\u{a0}\tb(1)\u{2003}}}").unwrap();
    assert_eq!(r, Some(vec![decl("a", "0"), decl("b", "1")]));
}

#[test]
fn statement_kinds_are_converted() {
    match parsed("{ fn f() {} let v; g(); x }") {
        ExprNode::Block { stmts } => {
            assert_eq!(stmts.len(), 4);
            assert!(matches!(stmts[0], StmtNode::Item));
            assert!(matches!(stmts[1], StmtNode::Local { ref bindings, init: None } if bindings == &vec![s("v")]));
            assert!(matches!(stmts[2], StmtNode::Semi { expr: ExprNode::Call { .. } }));
            assert!(matches!(stmts[3], StmtNode::Trailing { expr: ExprNode::Path { .. } }));
        }
        other => panic!("converted to {:?}", other),
    }
}
