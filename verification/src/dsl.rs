//! The decisions of the `threads!` macro: which argument is what, which locks
//! are declared, the orderings each thread block contributes, and the final
//! verdict on deadlock freedom.
use vstd::prelude::*;
use crate::analysis::{LockError, walk, parse_ast, str_equals, concat_orderings};
use crate::ast::ExprNode;
use crate::decl::{DeclError, DeclPatterns, LockDecl, decls_view, parse_lock_decls, section_decls};
use crate::orderings::{LockName, LockSeq, LockSeqs};
use crate::solver::{Satisfiability, lock_order_exists, order_pairs, solve_constraints};
use crate::syntax::{parse_syn, syn_parses, is_parse_of, models_expr, model_of_expr};

verus! {

/// The identifiers of a list of declarations.
pub open spec fn names_of(decls: Seq<LockDecl>) -> Seq<LockName> {
    decls.map_values(|d: LockDecl| d.name@)
}

/// The map from identifiers to initial values that a list of declarations
/// without repeated identifiers stands for.
pub open spec fn table_map(decls: Seq<LockDecl>) -> Map<Seq<char>, Seq<char>> {
    Map::new(
        |k: Seq<char>| names_of(decls).contains(k),
        |k: Seq<char>| decls[names_of(decls).index_of(k)].init@,
    )
}

/// The position of the declaration of `name`, if any.
fn find_decl(decls: &Vec<LockDecl>, name: &String) -> (r: Option<usize>)
    ensures
        match r {
            Some(i) => i < decls.len() && names_of(decls@)[i as int] == name@,
            None => !names_of(decls@).contains(name@),
        },
{
    let n = decls.len();
    let mut i: usize = 0;
    while i < n
        invariant
            n == decls.len(),
            i <= n,
            forall|k: int| 0 <= k < i ==> names_of(decls@)[k] != name@,
        decreases n - i,
    {
        if str_equals(decls[i].name.as_str(), name.as_str()) {
            return Some(i);
        }
        i = i + 1;
    }
    None
}

/// The declared locks: each identifier with the text of its initial value.
/// A later declaration of the same identifier replaces the earlier one.
pub struct LockTable {
    decls: Vec<LockDecl>,
}

impl LockTable {
    /// The identifiers of the declarations, in table order.
    pub closed spec fn lock_names_view(&self) -> Seq<LockName> {
        names_of(self.decls@)
    }

    /// No identifier is declared twice.
    #[verifier::type_invariant]
    closed spec fn no_duplicate_names(&self) -> bool {
        names_of(self.decls@).no_duplicates()
    }
}

impl View for LockTable {
    type V = Map<Seq<char>, Seq<char>>;

    closed spec fn view(&self) -> Map<Seq<char>, Seq<char>> {
        table_map(self.decls@)
    }
}

impl LockTable {
    /// A table that declares no lock.
    pub fn new() -> (r: LockTable)
        ensures
            r@ == Map::<Seq<char>, Seq<char>>::empty(),
    {
        let r = LockTable { decls: Vec::new() };
        assert(r@ =~= Map::<Seq<char>, Seq<char>>::empty());
        r
    }

    /// The identifiers of the table are exactly the declared locks.
    pub proof fn lemma_names_are_keys(&self)
        ensures
            forall|k: Seq<char>| #[trigger] self.lock_names_view().contains(k) <==> self@.dom().contains(k),
    {
    }

    /// Declares a lock, replacing an earlier declaration of the same identifier.
    pub fn insert(&mut self, decl: LockDecl)
        ensures
            final(self)@ == old(self)@.insert(decl.name@, decl.init@),
    {
        proof {
            use_type_invariant(&*self);
        }
        let ghost old_decls = self.decls@;
        let ghost old_names = names_of(old_decls);
        let ghost key = decl.name@;
        let ghost val = decl.init@;
        let found = find_decl(&self.decls, &decl.name);
        let mut decls: Vec<LockDecl> = Vec::new();
        std::mem::swap(&mut decls, &mut self.decls);
        match found {
            Some(i) => {
                assert(old_names[i as int] == key);
                decls.set(i, decl);
                assert(names_of(decls@) =~= old_names);
                self.decls = decls;
                assert forall|k: Seq<char>| #[trigger] old_names.contains(k) implies
                    self.decls@[old_names.index_of(k)].init@ == (if k == key { val } else { old_decls[old_names.index_of(k)].init@ }) by {
                    let j = old_names.index_of(k);
                    assert(old_names[j] == k);
                    if k == key {
                        assert(j == i);
                    }
                }
            },
            None => {
                decls.push(decl);
                assert(names_of(decls@) =~= old_names.push(key));
                self.decls = decls;
                assert forall|k: Seq<char>| #[trigger] names_of(self.decls@).contains(k) implies
                    self.decls@[names_of(self.decls@).index_of(k)].init@ == (if k == key { val } else { old_decls[old_names.index_of(k)].init@ }) by {
                    let j = names_of(self.decls@).index_of(k);
                    assert(names_of(self.decls@)[j] == k);
                    if k == key {
                        assert(names_of(self.decls@)[old_names.len() as int] == k);
                    } else {
                        assert(j < old_names.len());
                        assert(old_names[j] == k);
                        assert(old_names.index_of(k) == j);
                    }
                }
                assert forall|k: Seq<char>| #[trigger] names_of(self.decls@).contains(k) implies
                    old_names.contains(k) || k == key by {
                    let j = names_of(self.decls@).index_of(k);
                    assert(names_of(self.decls@)[j] == k);
                    if j < old_names.len() {
                        assert(old_names[j] == k);
                    }
                }
                assert forall|k: Seq<char>| old_names.contains(k) implies #[trigger] names_of(self.decls@).contains(k) by {
                    let j = old_names.index_of(k);
                    assert(old_names[j] == k);
                    assert(names_of(self.decls@)[j] == k);
                }
                assert(names_of(self.decls@)[old_names.len() as int] == key);
            },
        }
        assert(self@ =~= table_map(old_decls).insert(key, val));
    }

    /// Declares every lock of `decls`, in order.
    pub fn insert_all(&mut self, decls: Vec<LockDecl>)
        ensures
            final(self)@ == insert_decls(old(self)@, decls_view(decls)),
    {
        let ghost dv = decls_view(decls);
        let ghost start = self@;
        let ghost orig = decls@;
        let mut decls = decls;
        let n = decls.len();
        assert(dv.take(0) =~= Seq::<(Seq<char>, Seq<char>)>::empty());
        assert(orig.skip(0) =~= orig);
        let mut i: usize = 0;
        while i < n
            invariant
                n == orig.len(),
                i <= n,
                decls@ == orig.skip(i as int),
                dv == orig.map_values(|d: LockDecl| (d.name@, d.init@)),
                self@ == insert_decls(start, dv.take(i as int)),
            decreases n - i,
        {
            let d = decls.remove(0);
            assert(d == orig[i as int]);
            assert(decls@ =~= orig.skip(i + 1));
            self.insert(d);
            assert(dv.take(i + 1).drop_last() =~= dv.take(i as int));
            i = i + 1;
        }
        assert(dv.take(n as int) =~= dv);
    }

    /// The declared identifiers, each once.
    pub fn names(&self) -> (r: Vec<String>)
        ensures
            r.deep_view() == self.lock_names_view(),
    {
        let mut r: Vec<String> = Vec::new();
        let n = self.decls.len();
        for i in 0..n
            invariant
                n == self.decls.len(),
                r.deep_view() =~= self.lock_names_view().take(i as int),
        {
            let ghost prev = r.deep_view();
            r.push(self.decls[i].name.clone());
            assert(r.deep_view() =~= prev.push(self.decls@[i as int].name@));
        }
        assert(self.lock_names_view().take(n as int) =~= self.lock_names_view());
        r
    }

    /// The declarations, in table order.
    pub fn decls(&self) -> (r: &Vec<LockDecl>)
        ensures
            names_of(r@) == self.lock_names_view(),
            forall|k: int| 0 <= k < r.len() ==> self@[#[trigger] r@[k].name@] == r@[k].init@,
    {
        proof {
            use_type_invariant(self);
            assert forall|k: int| 0 <= k < self.decls.len() implies self@[#[trigger] self.decls@[k].name@] == self.decls@[k].init@ by {
                let nm = self.decls@[k].name@;
                assert(self.lock_names_view()[k] == nm);
                let j = self.lock_names_view().index_of(nm);
                assert(self.lock_names_view()[j] == nm);
            }
        }
        &self.decls
    }
}

/// The table after declaring every lock of `decls` in order.
pub open spec fn insert_decls(m: Map<Seq<char>, Seq<char>>, decls: Seq<(Seq<char>, Seq<char>)>) -> Map<
    Seq<char>,
    Seq<char>,
>
    decreases decls.len(),
{
    if decls.len() == 0 {
        m
    } else {
        insert_decls(m, decls.drop_last()).insert(decls.last().0, decls.last().1)
    }
}

/// What one argument of the macro is.
#[derive(Debug, PartialEq, Eq)]
pub enum MacroArg {
    /// A lock declaration section, with its declarations in the order written.
    LockDecls { decls: Vec<LockDecl> },
    /// The comma between two arguments.
    Separator,
    /// A thread block.
    ThreadBlock,
}

/// Classifies the text of one macro argument: a lock declaration section (or
/// the error of its first malformed entry), a separating comma, or else a
/// thread block.
pub fn classify_arg(patterns: &DeclPatterns, text: &str) -> (r: Result<MacroArg, DeclError>)
    requires
        patterns.wf(),
    ensures
        match section_decls(text@) {
            Err(e) => r == Err::<MacroArg, DeclError>(e),
            Ok(Some(d)) => r matches Ok(MacroArg::LockDecls { decls }) && decls_view(decls) == d,
            Ok(None) => if text@ == seq![','] {
                r == Ok::<MacroArg, DeclError>(MacroArg::Separator)
            } else {
                r == Ok::<MacroArg, DeclError>(MacroArg::ThreadBlock)
            },
        },
{
    match parse_lock_decls(patterns, text) {
        Err(e) => Err(e),
        Ok(Some(decls)) => Ok(MacroArg::LockDecls { decls }),
        Ok(None) => {
            proof {
                reveal_strlit(",");
                assert(","@ =~= seq![',']);
            }
            if str_equals(text, ",") {
                Ok(MacroArg::Separator)
            } else {
                Ok(MacroArg::ThreadBlock)
            }
        },
    }
}

/// Appends the orderings of one thread block to `orderings`, or says why the
/// block is refused (leaving `orderings` as it was).
pub fn add_thread_orderings(
    orderings: &mut Vec<Vec<String>>,
    locks: &LockTable,
    block: &ExprNode,
) -> (r: Result<(), LockError>)
    ensures
        match walk(*block, locks.lock_names_view(), Seq::empty(), Seq::empty()) {
            Ok(o) => r is Ok && final(orderings).deep_view() == old(orderings).deep_view() + o,
            Err(e) => r == Err::<(), LockError>(e) && final(orderings).deep_view() == old(
                orderings,
            ).deep_view(),
        },
{
    let names = locks.names();
    let empty: Vec<Vec<String>> = Vec::new();
    assert(empty.deep_view() =~= Seq::<Seq<Seq<char>>>::empty());
    let res = parse_ast(block, &names, &empty);
    match res {
        Ok(o) => {
            let mut cur: Vec<Vec<String>> = Vec::new();
            std::mem::swap(&mut cur, orderings);
            *orderings = concat_orderings(cur, o);
            Ok(())
        },
        Err(e) => Err(e),
    }
}

/// Why the macro reports a potential deadlock.
#[derive(Debug, Clone, Copy, PartialEq, Eq)]
pub enum DeadlockError {
    /// No global lock order is consistent with every thread.
    PotentialDeadlock,
    /// The solver could not decide.
    SolverUnknown,
}

/// The verdict on the orderings of all threads: accepted exactly when one
/// global lock order is respected by every thread, that is, when the lock
/// constraints contain no cycle; otherwise a potential deadlock, with a
/// cycle of locks to show for it.
pub fn check_deadlock_freedom(orderings: &Vec<Vec<String>>) -> (r: Result<(), DeadlockError>)
    ensures
        r is Ok <==> lock_order_exists(orderings.deep_view()),
        r is Ok ==> forall|cyc: Seq<LockName>| !#[trigger] is_lock_cycle(orderings.deep_view(), cyc),
        r is Err ==> r == Err::<(), DeadlockError>(DeadlockError::PotentialDeadlock),
        r == Err::<(), DeadlockError>(DeadlockError::PotentialDeadlock) ==> exists|cyc: Seq<LockName>|
            #[trigger] is_lock_cycle(orderings.deep_view(), cyc),
{
    proof {
        lemma_order_exists_iff_acyclic(orderings.deep_view());
    }
    verdict_of(solve_constraints(orderings))
}

/// The verdict for each answer of the solver: accept on `Sat`, a potential
/// deadlock on `Unsat`, and, to stay on the safe side, refuse on `Unknown`.
pub fn verdict_of(answer: Satisfiability) -> (r: Result<(), DeadlockError>)
    ensures
        r == match answer {
            Satisfiability::Sat => Ok::<(), DeadlockError>(()),
            Satisfiability::Unsat => Err(DeadlockError::PotentialDeadlock),
            Satisfiability::Unknown => Err(DeadlockError::SolverUnknown),
        },
{
    match answer {
        Satisfiability::Sat => Ok(()),
        Satisfiability::Unsat => Err(DeadlockError::PotentialDeadlock),
        Satisfiability::Unknown => Err(DeadlockError::SolverUnknown),
    }
}

/// Why an invocation of the macro is refused.
#[derive(Debug, PartialEq, Eq)]
pub enum MacroError {
    /// The lock declaration section is malformed.
    Decl(DeclError),
    /// A thread block breaks a rule of the DSL.
    Lock(LockError),
    /// A thread block comes before any lock declaration section, or there is
    /// none at all.
    MissingLockDeclaration,
    /// The initial value of a declared lock is no Rust expression.
    UnparsableInitialValue,
    /// A thread block is no Rust expression.
    UnparsableBlock,
    /// The threads may deadlock.
    Deadlock(DeadlockError),
}

/// What the macro has gathered so far from its arguments.
pub struct MacroState {
    /// The declared locks.
    pub locks: LockTable,
    /// The orderings of the thread blocks seen so far, block after block.
    pub orderings: Vec<Vec<String>>,
    /// Whether a lock declaration section has been seen.
    pub declared: bool,
}

/// What taking in the thread `block` does to the state `before`, giving
/// `after` and the answer `r`: the locks and the declaration flag stay; the
/// block's orderings (its walk from no orderings, over the declared locks)
/// are appended, and the answer is `Ok` exactly when a declaration section
/// came first; a refused walk is answered with its error and appends
/// nothing.
pub open spec fn thread_added(
    before: MacroState,
    block: ExprNode,
    after: MacroState,
    r: Result<(), MacroError>,
) -> bool {
    &&& after.locks == before.locks
    &&& after.declared == before.declared
    &&& match walk(block, before.locks.lock_names_view(), Seq::empty(), Seq::empty()) {
        Err(e) => r == Err::<(), MacroError>(MacroError::Lock(e))
            && after.orderings.deep_view() == before.orderings.deep_view(),
        Ok(o) => after.orderings.deep_view() == before.orderings.deep_view() + o && r == (
        if before.declared {
            Ok::<(), MacroError>(())
        } else {
            Err::<(), MacroError>(MacroError::MissingLockDeclaration)
        }),
    }
}

impl MacroState {
    /// Nothing gathered yet.
    pub fn new() -> (r: MacroState)
        ensures
            r.locks@ == Map::<Seq<char>, Seq<char>>::empty(),
            r.orderings.deep_view() == Seq::<Seq<Seq<char>>>::empty(),
            !r.declared,
    {
        let r = MacroState { locks: LockTable::new(), orderings: Vec::new(), declared: false };
        assert(r.orderings.deep_view() =~= Seq::<Seq<Seq<char>>>::empty());
        r
    }

    /// Takes in a lock declaration section; refused when the initial value
    /// of some declared lock is no Rust expression.
    #[verifier::loop_isolation(false)]
    pub fn declare(&mut self, decls: Vec<LockDecl>) -> (r: Result<(), MacroError>)
        ensures
            final(self).locks@ == insert_decls(old(self).locks@, decls_view(decls)),
            final(self).orderings == old(self).orderings,
            final(self).declared,
            r is Ok <==> forall|k: Seq<char>|
                #[trigger] final(self).locks@.dom().contains(k) ==> syn_parses(
                    final(self).locks@[k],
                ),
            r matches Err(e) ==> e == MacroError::UnparsableInitialValue,
    {
        self.locks.insert_all(decls);
        self.declared = true;
        let table = self.locks.decls();
        proof {
            self.locks.lemma_names_are_keys();
        }
        let n = table.len();
        for i in 0..n
            invariant
                n == table.len(),
                forall|j: int| 0 <= j < i ==> syn_parses(#[trigger] table@[j].init@),
        {
            if parse_syn(table[i].init.as_str()).is_none() {
                proof {
                    let k = table@[i as int].name@;
                    assert(names_of(table@)[i as int] == k);
                    assert(self.locks.lock_names_view().contains(k));
                    assert(self.locks@[k] == table@[i as int].init@);
                }
                return Err(MacroError::UnparsableInitialValue);
            }
        }
        proof {
            assert forall|k: Seq<char>| #[trigger] self.locks@.dom().contains(k) implies syn_parses(
                self.locks@[k],
            ) by {
                assert(self.locks.lock_names_view().contains(k));
                let j = choose|j: int| 0 <= j < names_of(table@).len() && names_of(table@)[j] == k;
                assert(table@[j].name@ == k);
                assert(self.locks@[table@[j].name@] == table@[j].init@);
            }
        }
        Ok(())
    }

    /// Takes in the text of a thread block: refused when it is no Rust
    /// expression, otherwise as `add_thread` does with the model of the
    /// parsed block.
    pub fn add_block_text(&mut self, text: &str) -> (r: Result<(), MacroError>)
        ensures
            !syn_parses(text@) ==> r == Err::<(), MacroError>(MacroError::UnparsableBlock)
                && *final(self) == *old(self),
            syn_parses(text@) ==> exists|e: syn::Expr, block: ExprNode|
                is_parse_of(text@, e) && #[trigger] models_expr(block, e, usize::MAX as nat)
                    && thread_added(*old(self), block, *final(self), r),
    {
        match parse_syn(text) {
            None => Err(MacroError::UnparsableBlock),
            Some(e) => {
                let block = model_of_expr(&e, usize::MAX);
                let r = self.add_thread(&block);
                assert(models_expr(block, e, usize::MAX as nat));
                r
            },
        }
    }

    /// Takes in a thread block: its orderings are appended, or the block is
    /// refused; a block before any declaration section is refused after its
    /// orderings are taken.
    pub fn add_thread(&mut self, block: &ExprNode) -> (r: Result<(), MacroError>)
        ensures
            thread_added(*old(self), *block, *final(self), r),
    {
        match add_thread_orderings(&mut self.orderings, &self.locks, block) {
            Err(e) => Err(MacroError::Lock(e)),
            Ok(()) => if self.declared {
                Ok(())
            } else {
                Err(MacroError::MissingLockDeclaration)
            },
        }
    }

    /// Decides the whole invocation: refused for a potential deadlock among
    /// the orderings of all threads, otherwise refused when no lock
    /// declaration section was seen, otherwise accepted.
    pub fn finish(&self) -> (r: Result<(), MacroError>)
        ensures
            r == (if !lock_order_exists(self.orderings.deep_view()) {
                Err::<(), MacroError>(MacroError::Deadlock(DeadlockError::PotentialDeadlock))
            } else if !self.declared {
                Err(MacroError::MissingLockDeclaration)
            } else {
                Ok(())
            }),
            r is Ok <==> self.declared && lock_order_exists(self.orderings.deep_view()),
    {
        outcome(self.declared, check_deadlock_freedom(&self.orderings))
    }
}

/// The outcome of an invocation for each verdict on its orderings: a
/// refused verdict is reported first, then a missing declaration section.
pub fn outcome(declared: bool, verdict: Result<(), DeadlockError>) -> (r: Result<(), MacroError>)
    ensures
        r == match verdict {
            Err(e) => Err(MacroError::Deadlock(e)),
            Ok(()) => if declared {
                Ok::<(), MacroError>(())
            } else {
                Err(MacroError::MissingLockDeclaration)
            },
        },
{
    match verdict {
        Err(e) => Err(MacroError::Deadlock(e)),
        Ok(()) => if declared {
            Ok(())
        } else {
            Err(MacroError::MissingLockDeclaration)
        },
    }
}

/// Some thread acquires `a` first and `b` later, so `a` must rank below `b`.
pub open spec fn must_precede(lst: LockSeqs, a: LockName, b: LockName) -> bool {
    order_pairs(lst).contains((a, b))
}

/// A chain of lock constraints: each lock of `p` must rank below the next.
pub open spec fn is_chain(lst: LockSeqs, p: Seq<LockName>) -> bool {
    &&& p.len() >= 2
    &&& forall|j: int| 1 <= j < p.len() ==> must_precede(lst, p[j - 1], #[trigger] p[j])
}

/// A cycle of lock constraints: a chain that ends where it starts.
pub open spec fn is_lock_cycle(lst: LockSeqs, cyc: Seq<LockName>) -> bool {
    &&& is_chain(lst, cyc)
    &&& cyc[0] == cyc.last()
}

/// When the lock constraints contain a cycle, no global lock order exists,
/// so the verdict is never to accept.
pub proof fn lemma_cycle_refutes_order(lst: LockSeqs, cyc: Seq<LockName>)
    requires
        is_lock_cycle(lst, cyc),
    ensures
        !lock_order_exists(lst),
{
    if lock_order_exists(lst) {
        let rank = choose|rank: spec_fn(LockName) -> int| crate::solver::respects(order_pairs(lst), rank);
        let pairs = order_pairs(lst);
        assert forall|j: int| 1 <= j < cyc.len() implies rank(cyc[j - 1]) < rank(#[trigger] cyc[j]) by {
            assert(must_precede(lst, cyc[j - 1], cyc[j]));
            let k = choose|k: int| 0 <= k < pairs.len() && pairs[k] == (cyc[j - 1], cyc[j]);
            assert(rank(pairs[k].0) < rank(pairs[k].1));
        }
        lemma_rank_increases(cyc, rank, cyc.len() - 1);
    }
}

/// Along a chain whose consecutive elements increase in rank, the rank of
/// every later element exceeds the rank of the first.
proof fn lemma_rank_increases(cyc: Seq<LockName>, rank: spec_fn(LockName) -> int, j: int)
    requires
        1 <= j < cyc.len(),
        forall|i: int| 1 <= i < cyc.len() ==> rank(cyc[i - 1]) < rank(#[trigger] cyc[i]),
    ensures
        rank(cyc[0]) < rank(cyc[j]),
    decreases j,
{
    if j > 1 {
        lemma_rank_increases(cyc, rank, j - 1);
        assert(rank(cyc[j - 1]) < rank(cyc[j]));
    } else {
        assert(rank(cyc[0]) < rank(cyc[1]));
    }
}

/// The locks reachable from `x` along a chain of constraints.
pub open spec fn reachable(lst: LockSeqs, x: LockName) -> Set<LockName> {
    Set::new(|y: LockName| exists|p: Seq<LockName>| #[trigger] is_chain(lst, p) && p[0] == x && p.last() == y)
}

/// The locks that some constraint puts after another one.
pub open spec fn later_locks(lst: LockSeqs) -> Set<LockName> {
    order_pairs(lst).map_values(|q: (LockName, LockName)| q.1).to_set()
}

/// Only later locks are reachable, so the reachable set is finite.
proof fn lemma_reachable_finite(lst: LockSeqs, x: LockName)
    ensures
        reachable(lst, x).subset_of(later_locks(lst)),
        reachable(lst, x).finite(),
{
    let pairs = order_pairs(lst);
    let ends = pairs.map_values(|q: (LockName, LockName)| q.1);
    assert forall|y: LockName| reachable(lst, x).contains(y) implies later_locks(lst).contains(y) by {
        let p = choose|p: Seq<LockName>| #[trigger] is_chain(lst, p) && p[0] == x && p.last() == y;
        let j = p.len() - 1;
        assert(must_precede(lst, p[j - 1], p[j]));
        let k = choose|k: int| 0 <= k < pairs.len() && pairs[k] == (p[j - 1], p[j]);
        assert(ends[k] == y);
    }
    vstd::seq_lib::seq_to_set_is_finite(ends);
    vstd::set_lib::lemma_len_subset(reachable(lst, x), later_locks(lst));
}

/// Whatever `b` reaches, `a` reaches too when `a` must precede `b`; and `a`
/// reaches `b`.
proof fn lemma_reachable_step(lst: LockSeqs, a: LockName, b: LockName)
    requires
        must_precede(lst, a, b),
    ensures
        reachable(lst, b).subset_of(reachable(lst, a)),
        reachable(lst, a).contains(b),
{
    let ab = seq![a, b];
    assert(ab[1] == b);
    assert(is_chain(lst, ab));
    assert forall|y: LockName| reachable(lst, b).contains(y) implies reachable(lst, a).contains(y) by {
        let p = choose|p: Seq<LockName>| #[trigger] is_chain(lst, p) && p[0] == b && p.last() == y;
        let q = seq![a] + p;
        assert forall|j: int| 1 <= j < q.len() implies must_precede(lst, q[j - 1], #[trigger] q[j]) by {
            if j == 1 {
                assert(q[0] == a && q[1] == b);
            } else {
                assert(q[j - 1] == p[j - 2] && q[j] == p[j - 1]);
                assert(must_precede(lst, p[(j - 1) - 1], p[j - 1]));
            }
        }
        assert(is_chain(lst, q));
        assert(q[0] == a && q.last() == y);
    }
}

/// When the lock constraints contain no cycle, one global lock order exists:
/// rank each lock by minus the number of locks reachable from it.
pub proof fn lemma_acyclic_order_exists(lst: LockSeqs)
    requires
        forall|cyc: Seq<LockName>| !#[trigger] is_lock_cycle(lst, cyc),
    ensures
        lock_order_exists(lst),
{
    let rank = |x: LockName| -(reachable(lst, x).len() as int);
    let pairs = order_pairs(lst);
    assert forall|k: int| 0 <= k < pairs.len() implies #[trigger] rank(pairs[k].0) < rank(pairs[k].1) by {
        let (a, b) = pairs[k];
        assert(must_precede(lst, a, b));
        lemma_reachable_step(lst, a, b);
        lemma_reachable_finite(lst, a);
        lemma_reachable_finite(lst, b);
        if reachable(lst, b).contains(b) {
            let p = choose|p: Seq<LockName>| #[trigger] is_chain(lst, p) && p[0] == b && p.last() == b;
            assert(is_lock_cycle(lst, p));
        }
        let ra = reachable(lst, a);
        let rb = reachable(lst, b);
        assert(rb.subset_of(ra.remove(b)));
        vstd::set_lib::lemma_len_subset(rb, ra.remove(b));
        assert(ra.remove(b).len() == ra.len() - 1);
    }
    assert(crate::solver::respects(pairs, rank));
}

/// One global lock order exists exactly when the lock constraints contain no
/// cycle.
pub proof fn lemma_order_exists_iff_acyclic(lst: LockSeqs)
    ensures
        lock_order_exists(lst) <==> forall|cyc: Seq<LockName>| !#[trigger] is_lock_cycle(lst, cyc),
{
    if forall|cyc: Seq<LockName>| !#[trigger] is_lock_cycle(lst, cyc) {
        lemma_acyclic_order_exists(lst);
    } else {
        let cyc = choose|cyc: Seq<LockName>| #[trigger] is_lock_cycle(lst, cyc);
        lemma_cycle_refutes_order(lst, cyc);
    }
}

/// A thread that acquires a lock again while the ordering runs on can never
/// be accepted: the locks between the two acquisitions form a cycle.
pub proof fn lemma_reacquired_lock_refutes_order(lst: LockSeqs, i: int, j: int, k: int)
    requires
        0 <= i < lst.len(),
        0 <= j < k < lst[i].len(),
        lst[i][j] == lst[i][k],
    ensures
        !lock_order_exists(lst),
{
    let o = lst[i];
    let cyc = o.subrange(j, k + 1);
    assert forall|t: int| 1 <= t < cyc.len() implies must_precede(lst, cyc[t - 1], #[trigger] cyc[t]) by {
        lemma_order_pairs_contains(lst, i, j + t);
        assert(cyc[t - 1] == o[j + t - 1]);
        assert(cyc[t] == o[j + t]);
    }
    assert(is_chain(lst, cyc));
    assert(cyc[0] == cyc.last());
    lemma_cycle_refutes_order(lst, cyc);
}

/// The constraints are exactly the pairs of consecutive locks of some ordering.
pub proof fn lemma_order_pairs_members(lst: LockSeqs, q: (LockName, LockName))
    ensures
        order_pairs(lst).contains(q) <==> exists|i: int, k: int|
            0 <= i < lst.len() && 1 <= k < lst[i].len() && q == (#[trigger] lst[i][k - 1], lst[i][k]),
    decreases lst.len(),
{
    if exists|i: int, k: int|
        0 <= i < lst.len() && 1 <= k < lst[i].len() && q == (#[trigger] lst[i][k - 1], lst[i][k]) {
        let (i, k) = choose|i: int, k: int|
            0 <= i < lst.len() && 1 <= k < lst[i].len() && q == (#[trigger] lst[i][k - 1], lst[i][k]);
        lemma_order_pairs_contains(lst, i, k);
    }
    if order_pairs(lst).contains(q) && lst.len() > 0 {
        let before = order_pairs(lst.drop_last());
        let o = lst.last();
        let j = choose|j: int| 0 <= j < order_pairs(lst).len() && order_pairs(lst)[j] == q;
        if j < before.len() {
            assert(before[j] == q);
            lemma_order_pairs_members(lst.drop_last(), q);
            let (i, k) = choose|i: int, k: int|
                0 <= i < lst.drop_last().len() && 1 <= k < lst.drop_last()[i].len() && q == (
                    #[trigger] lst.drop_last()[i][k - 1],
                    lst.drop_last()[i][k],
                );
            assert(lst[i] == lst.drop_last()[i]);
            assert(q == (lst[i][k - 1], lst[i][k]));
        } else {
            let t = j - before.len();
            assert(q == (o[t], o[t + 1]));
            let i = lst.len() - 1;
            assert(q == (lst[i][(t + 1) - 1], lst[i][t + 1]));
        }
    }
}

/// Whether a global lock order exists depends only on which orderings occur:
/// if every ordering of `fewer` is one of `more`, an order for `more` is one
/// for `fewer`. Dropping, repeating or permuting orderings therefore never
/// turns an accepted set of orderings into a refused one, and permuting or
/// repeating them changes nothing.
pub proof fn lemma_order_depends_on_orderings_only(more: LockSeqs, fewer: LockSeqs)
    requires
        forall|o: LockSeq| #[trigger] fewer.contains(o) ==> more.contains(o),
    ensures
        lock_order_exists(more) ==> lock_order_exists(fewer),
{
    if lock_order_exists(more) {
        let rank = choose|rank: spec_fn(LockName) -> int| crate::solver::respects(order_pairs(more), rank);
        let pairs = order_pairs(fewer);
        assert forall|j: int| 0 <= j < pairs.len() implies #[trigger] rank(pairs[j].0) < rank(pairs[j].1) by {
            let q = pairs[j];
            assert(pairs.contains(q));
            lemma_order_pairs_members(fewer, q);
            let (i, k) = choose|i: int, k: int|
                0 <= i < fewer.len() && 1 <= k < fewer[i].len() && q == (#[trigger] fewer[i][k - 1], fewer[i][k]);
            assert(fewer.contains(fewer[i]));
            let i2 = choose|i2: int| 0 <= i2 < more.len() && more[i2] == fewer[i];
            lemma_order_pairs_contains(more, i2, k);
            let m = choose|m: int| 0 <= m < order_pairs(more).len() && order_pairs(more)[m] == q;
            assert(rank(order_pairs(more)[m].0) < rank(order_pairs(more)[m].1));
        }
        assert(crate::solver::respects(pairs, rank));
    }
}

/// An ordering of at most one lock adds no constraint.
pub proof fn lemma_short_ordering_adds_nothing(lst: LockSeqs, o: LockSeq)
    requires
        o.len() <= 1,
    ensures
        order_pairs(lst.push(o)) == order_pairs(lst),
{
    assert(lst.push(o).drop_last() =~= lst);
    assert(crate::solver::pairs_of(o) =~= Seq::<(LockName, LockName)>::empty());
    assert(order_pairs(lst.push(o)) =~= order_pairs(lst));
}

/// Every ordering contributes the pair of each lock and the next one.
pub proof fn lemma_order_pairs_contains(lst: LockSeqs, i: int, k: int)
    requires
        0 <= i < lst.len(),
        1 <= k < lst[i].len(),
    ensures
        order_pairs(lst).contains((lst[i][k - 1], lst[i][k])),
    decreases lst.len(),
{
    let before = order_pairs(lst.drop_last());
    if i < lst.len() - 1 {
        lemma_order_pairs_contains(lst.drop_last(), i, k);
        let j = choose|j: int| 0 <= j < before.len() && before[j] == (lst[i][k - 1], lst[i][k]);
        assert(order_pairs(lst)[j] == (lst[i][k - 1], lst[i][k]));
    } else {
        let o = lst.last();
        assert(order_pairs(lst)[before.len() + k - 1] == (o[k - 1], o[k]));
    }
}

} // verus!
