//! Deciding whether the lock orderings of all threads admit one global lock
//! order, with the Z3 SMT solver.
//!
//! Every distinct lock name gets an integer variable. For each ordering, the
//! variable of each lock must be smaller than the variable of the lock
//! acquired next. The orderings are consistent when these constraints
//! have a solution: a rank for every lock that each thread respects.
use vstd::prelude::*;
use crate::orderings::{LockName, LockSeq, LockSeqs};
use crate::analysis::contains_name;

verus! {

#[verifier::external_type_specification]
#[verifier::external_body]
pub struct ExSolver(z3::Solver);

/// The constraints asserted on a Z3 solver so far, in order; `(i, j)` stands
/// for `var_i < var_j` over the integers.
pub uninterp spec fn solver_constraints(s: z3::Solver) -> Seq<(u64, u64)>;

/// Whether some assignment of integers to the variables meets every
/// constraint `var_i < var_j`.
pub open spec fn constraints_satisfiable(cs: Seq<(u64, u64)>) -> bool {
    exists|val: spec_fn(u64) -> int| #[trigger] solves(cs, val)
}

/// Whether `val` meets every constraint `var_i < var_j` of `cs`.
pub open spec fn solves(cs: Seq<(u64, u64)>, val: spec_fn(u64) -> int) -> bool {
    forall|k: int| 0 <= k < cs.len() ==> #[trigger] val(cs[k].0) < val(cs[k].1)
}

/// The answer of a satisfiability check.
#[derive(Debug, Clone, Copy, PartialEq, Eq)]
pub enum Satisfiability {
    /// The constraints have a solution.
    Sat,
    /// The constraints have no solution.
    Unsat,
    /// The solver could not decide.
    Unknown,
}

/// Creates a Z3 solver (`z3::Solver::new`) in the thread's Z3 context; it
/// holds no constraint.
#[verifier::external_body]
fn new_solver() -> (s: z3::Solver)
    ensures
        solver_constraints(s) == Seq::<(u64, u64)>::empty(),
{
    z3::Solver::new()
}

/// Asserts `var_lhs < var_rhs` on the solver (`z3::Solver::assert` of
/// `z3::ast::Int::lt` over the integer constants named `var<lhs>` and
/// `var<rhs>`, made by `z3::ast::Int::new_const`); the solver then holds one
/// more constraint.
#[verifier::external_body]
fn assert_less_than(solver: &mut z3::Solver, lhs: u64, rhs: u64)
    ensures
        solver_constraints(*final(solver)) == solver_constraints(*old(solver)).push((lhs, rhs)),
{
    let a = z3::ast::Int::new_const(format!("var{}", lhs));
    let b = z3::ast::Int::new_const(format!("var{}", rhs));
    solver.assert(a.lt(&b));
}

/// Checks the solver's constraints (`z3::Solver::check`): `Sat` only when
/// they have a solution, `Unsat` only when they have none; `Unknown` when Z3
/// gives up, which the claim leaves open.
#[verifier::external_body]
fn check_solver(solver: &z3::Solver) -> (r: Satisfiability)
    ensures
        r == Satisfiability::Sat ==> constraints_satisfiable(solver_constraints(*solver)),
        r == Satisfiability::Unsat ==> !constraints_satisfiable(solver_constraints(*solver)),
{
    match solver.check() {
        z3::SatResult::Sat => Satisfiability::Sat,
        z3::SatResult::Unsat => Satisfiability::Unsat,
        z3::SatResult::Unknown => Satisfiability::Unknown,
    }
}

/// All lock names of all orderings, in order.
pub open spec fn all_names(lst: LockSeqs) -> Seq<LockName>
    decreases lst.len(),
{
    if lst.len() == 0 {
        Seq::empty()
    } else {
        all_names(lst.drop_last()) + lst.last()
    }
}

/// The distinct elements of `s`, in the order of their first occurrence.
pub open spec fn dedup(s: Seq<LockName>) -> Seq<LockName>
    decreases s.len(),
{
    if s.len() == 0 {
        Seq::empty()
    } else if dedup(s.drop_last()).contains(s.last()) {
        dedup(s.drop_last())
    } else {
        dedup(s.drop_last()).push(s.last())
    }
}

/// The constraints one ordering imposes: each lock comes before the lock
/// acquired next.
pub open spec fn pairs_of(o: LockSeq) -> Seq<(LockName, LockName)> {
    if o.len() == 0 {
        Seq::empty()
    } else {
        Seq::new((o.len() - 1) as nat, |k: int| (o[k], o[k + 1]))
    }
}

/// The constraints of all orderings, in order.
pub open spec fn order_pairs(lst: LockSeqs) -> Seq<(LockName, LockName)>
    decreases lst.len(),
{
    if lst.len() == 0 {
        Seq::empty()
    } else {
        order_pairs(lst.drop_last()) + pairs_of(lst.last())
    }
}

/// Whether `rank` puts the first lock of every pair strictly below the second.
pub open spec fn respects(pairs: Seq<(LockName, LockName)>, rank: spec_fn(LockName) -> int) -> bool {
    forall|k: int| 0 <= k < pairs.len() ==> #[trigger] rank(pairs[k].0) < rank(pairs[k].1)
}

/// Whether one global rank of the locks is respected by every ordering.
pub open spec fn lock_order_exists(lst: LockSeqs) -> bool {
    exists|rank: spec_fn(LockName) -> int| respects(order_pairs(lst), rank)
}

/// The index constraints that stand for the name constraints `pairs`, given
/// the variable numbering `names`.
pub open spec fn index_constraints(names: Seq<LockName>, pairs: Seq<(LockName, LockName)>) -> Seq<
    (u64, u64),
> {
    pairs.map_values(
        |p: (LockName, LockName)| (names.index_of(p.0) as u64, names.index_of(p.1) as u64),
    )
}

/// `dedup` keeps exactly the elements of its argument.
pub proof fn lemma_dedup_contains(s: Seq<LockName>, x: LockName)
    ensures
        dedup(s).contains(x) <==> s.contains(x),
    decreases s.len(),
{
    if s.len() > 0 {
        lemma_dedup_contains(s.drop_last(), x);
        if s.drop_last().contains(x) {
            let i = choose|i: int| 0 <= i < s.drop_last().len() && s.drop_last()[i] == x;
            assert(s[i] == x);
        }
        if s.contains(x) && x != s.last() {
            let i = choose|i: int| 0 <= i < s.len() && s[i] == x;
            assert(s.drop_last()[i] == x);
        }
        if x == s.last() {
            assert(s[s.len() - 1] == x);
        }
        if dedup(s.drop_last()).contains(s.last()) {
        } else {
            assert(dedup(s).last() == s.last());
            if dedup(s.drop_last()).contains(x) {
                let i = choose|i: int|
                    0 <= i < dedup(s.drop_last()).len() && dedup(s.drop_last())[i] == x;
                assert(dedup(s)[i] == x);
            }
            if dedup(s).contains(x) && x != s.last() {
                let i = choose|i: int| 0 <= i < dedup(s).len() && dedup(s)[i] == x;
                assert(dedup(s.drop_last())[i] == x);
            }
        }
    }
}

/// `dedup` yields no element twice.
pub proof fn lemma_dedup_no_duplicates(s: Seq<LockName>)
    ensures
        dedup(s).no_duplicates(),
    decreases s.len(),
{
    if s.len() > 0 {
        lemma_dedup_no_duplicates(s.drop_last());
    }
}

/// The distinct lock names of all orderings, in the order of their first
/// occurrence; a lock's variable is its position here.
pub fn lock_variables(lst: &Vec<Vec<String>>) -> (names: Vec<String>)
    ensures
        names.deep_view() == dedup(all_names(lst.deep_view())),
{
    let ghost l = lst.deep_view();
    let mut names: Vec<String> = Vec::new();
    let n = lst.len();
    assert(names.deep_view() =~= dedup(all_names(l.take(0))));
    for i in 0..n
        invariant
            n == lst.len(),
            l == lst.deep_view(),
            names.deep_view() == dedup(all_names(l.take(i as int))),
    {
        let m = lst[i].len();
        let ghost base = all_names(l.take(i as int));
        assert(base + l[i as int].take(0) =~= base);
        for k in 0..m
            invariant
                n == lst.len(),
                l == lst.deep_view(),
                i < n,
                m == lst@[i as int].len(),
                base == all_names(l.take(i as int)),
                names.deep_view() == dedup(base + l[i as int].take(k as int)),
        {
            let ghost s = base + l[i as int].take(k as int);
            let ghost s1 = base + l[i as int].take(k + 1);
            assert(s1.drop_last() =~= s);
            assert(s1.last() == lst@[i as int]@[k as int]@);
            if !contains_name(&names, &lst[i][k]) {
                let ghost prev = names.deep_view();
                names.push(lst[i][k].clone());
                assert(names.deep_view() =~= prev.push(lst@[i as int]@[k as int]@));
            }
        }
        assert(l.take(i + 1).drop_last() =~= l.take(i as int));
        assert(l[i as int].take(m as int) =~= l[i as int]);
    }
    assert(l.take(n as int) =~= l);
    names
}

/// The position of `x` in `names`, which holds it.
fn find_name(names: &Vec<String>, x: &String) -> (r: usize)
    requires
        names.deep_view().contains(x@),
    ensures
        r < names.len(),
        names.deep_view()[r as int] == x@,
{
    let n = names.len();
    let mut i: usize = 0;
    while i < n
        invariant
            n == names.len(),
            i <= n,
            names.deep_view().contains(x@),
            forall|k: int| 0 <= k < i ==> names.deep_view()[k] != x@,
        decreases n - i,
    {
        if crate::analysis::str_equals(names[i].as_str(), x.as_str()) {
            return i;
        }
        i = i + 1;
    }
    assert(false);
    0
}

/// Every name of every ordering occurs in `all_names`.
proof fn lemma_all_names_contains(lst: LockSeqs, i: int, k: int)
    requires
        0 <= i < lst.len(),
        0 <= k < lst[i].len(),
    ensures
        all_names(lst).contains(lst[i][k]),
    decreases lst.len(),
{
    if i < lst.len() - 1 {
        lemma_all_names_contains(lst.drop_last(), i, k);
        let j = choose|j: int|
            0 <= j < all_names(lst.drop_last()).len() && all_names(lst.drop_last())[j] == lst[i][k];
        assert(all_names(lst)[j] == lst[i][k]);
    } else {
        let base = all_names(lst.drop_last());
        assert(all_names(lst)[base.len() + k] == lst[i][k]);
    }
}

/// In a sequence without duplicates, `index_of` is the position of the element.
proof fn lemma_index_of_unique(names: Seq<LockName>, r: int)
    requires
        names.no_duplicates(),
        0 <= r < names.len(),
    ensures
        names.index_of(names[r]) == r,
{
    assert(names[r] == names[r]);
}

/// Solutions of the index constraints and ranks of the lock names correspond.
proof fn lemma_constraints_match(names: Seq<LockName>, pairs: Seq<(LockName, LockName)>)
    requires
        names.no_duplicates(),
        names.len() <= u64::MAX,
        forall|k: int|
            0 <= k < pairs.len() ==> names.contains(#[trigger] pairs[k].0) && names.contains(
                pairs[k].1,
            ),
    ensures
        constraints_satisfiable(index_constraints(names, pairs)) <==> exists|
            rank: spec_fn(LockName) -> int,
        |
            respects(pairs, rank),
{
    let cs = index_constraints(names, pairs);
    assert forall|x: LockName| names.contains(x) implies 0 <= #[trigger] names.index_of(x) < names.len()
        && names[names.index_of(x)] == x by {
        let j = choose|j: int| 0 <= j < names.len() && names[j] == x;
        assert(names[j] == x);
    }
    if constraints_satisfiable(cs) {
        let val = choose|val: spec_fn(u64) -> int| solves(cs, val);
        let rank = |x: LockName| val(names.index_of(x) as u64);
        assert forall|k: int| 0 <= k < pairs.len() implies #[trigger] rank(pairs[k].0) < rank(
            pairs[k].1,
        ) by {
            assert(val(cs[k].0) < val(cs[k].1));
        }
        assert(respects(pairs, rank));
    }
    if exists|rank: spec_fn(LockName) -> int| respects(pairs, rank) {
        let rank = choose|rank: spec_fn(LockName) -> int| respects(pairs, rank);
        let val = |v: u64| rank(names[v as int]);
        assert forall|k: int| 0 <= k < cs.len() implies #[trigger] val(cs[k].0) < val(cs[k].1) by {
            let a = pairs[k].0;
            let b = pairs[k].1;
            assert(names.contains(a) && names.contains(b));
            let ia = names.index_of(a);
            let ib = names.index_of(b);
            assert(names[ia] == a);
            assert(names[ib] == b);
            assert(cs[k] == (ia as u64, ib as u64));
            assert(rank(a) < rank(b));
        }
        assert(solves(cs, val));
    }
}

/// Every name of a constraint occurs among the lock names.
proof fn lemma_order_pairs_names(lst: LockSeqs, k: int)
    requires
        0 <= k < order_pairs(lst).len(),
    ensures
        all_names(lst).contains(order_pairs(lst)[k].0),
        all_names(lst).contains(order_pairs(lst)[k].1),
    decreases lst.len(),
{
    if lst.len() > 0 {
        let before = order_pairs(lst.drop_last());
        if k < before.len() {
            lemma_order_pairs_names(lst.drop_last(), k);
            let a = order_pairs(lst)[k].0;
            let b = order_pairs(lst)[k].1;
            let ja = choose|j: int|
                0 <= j < all_names(lst.drop_last()).len() && all_names(lst.drop_last())[j] == a;
            let jb = choose|j: int|
                0 <= j < all_names(lst.drop_last()).len() && all_names(lst.drop_last())[j] == b;
            assert(all_names(lst)[ja] == a);
            assert(all_names(lst)[jb] == b);
        } else {
            let o = lst.last();
            let j = k - before.len();
            assert(order_pairs(lst)[k] == (o[j], o[j + 1]));
            lemma_all_names_contains(lst, lst.len() - 1, j);
            lemma_all_names_contains(lst, lst.len() - 1, j + 1);
        }
    }
}

/// The constraints `(i, j)`, standing for `var_i < var_j`, one per pair of
/// consecutive locks of an ordering, in order, where each lock's variable is
/// its position among the distinct lock names in order of first occurrence.
pub fn constraint_pairs(lst: &Vec<Vec<String>>) -> (cs: Vec<(u64, u64)>)
    ensures
        dedup(all_names(lst.deep_view())).len() <= usize::MAX,
        cs@ == index_constraints(dedup(all_names(lst.deep_view())), order_pairs(lst.deep_view())),
{
    let ghost l = lst.deep_view();
    let names = lock_variables(lst);
    let ghost nv = names.deep_view();
    proof {
        lemma_dedup_no_duplicates(all_names(l));
        assert forall|x: LockName| #[trigger] nv.contains(x) <==> all_names(l).contains(x) by {
            lemma_dedup_contains(all_names(l), x);
        }
    }
    let mut solver: Vec<(u64, u64)> = Vec::new();
    let n = lst.len();
    assert(order_pairs(l.take(0)) =~= Seq::<(LockName, LockName)>::empty());
    assert(index_constraints(nv, order_pairs(l.take(0))) =~= Seq::<(u64, u64)>::empty());
    for i in 0..n
        invariant
            n == lst.len(),
            l == lst.deep_view(),
            nv == names.deep_view(),
            nv.no_duplicates(),
            forall|x: LockName| #[trigger] nv.contains(x) <==> all_names(l).contains(x),
            solver@ == index_constraints(nv, order_pairs(l.take(i as int))),
    {
        let m = lst[i].len();
        let ghost base = order_pairs(l.take(i as int));
        let ghost o = l[i as int];
        if m > 0 {
            assert(base + pairs_of(o).take(0) =~= base);
            let mut k: usize = 1;
            while k < m
                invariant
                    n == lst.len(),
                    l == lst.deep_view(),
                    nv == names.deep_view(),
                    nv.no_duplicates(),
                    forall|x: LockName| #[trigger] nv.contains(x) <==> all_names(l).contains(x),
                    i < n,
                    o == l[i as int],
                    m == o.len(),
                    1 <= k <= m,
                    base == order_pairs(l.take(i as int)),
                    solver@ == index_constraints(nv, base + pairs_of(o).take(k - 1)),
                decreases m - k,
            {
                proof {
                    lemma_all_names_contains(l, i as int, k - 1);
                    lemma_all_names_contains(l, i as int, k as int);
                }
                let c1 = find_name(&names, &lst[i][k - 1]);
                let c2 = find_name(&names, &lst[i][k]);
                proof {
                    lemma_index_of_unique(nv, c1 as int);
                    lemma_index_of_unique(nv, c2 as int);
                }
                assert(names.len() <= usize::MAX);
                solver.push((c1 as u64, c2 as u64));
                assert(pairs_of(o)[k - 1] == (o[k - 1], o[k as int]));
                assert(base + pairs_of(o).take(k as int) =~= (base + pairs_of(o).take(k - 1)).push(
                    (o[k - 1], o[k as int]),
                ));
                assert(solver@ =~= index_constraints(
                    nv,
                    base + pairs_of(o).take(k as int),
                ));
                k = k + 1;
            }
            assert(pairs_of(o).take(m - 1) =~= pairs_of(o));
        } else {
            assert(pairs_of(o) =~= Seq::<(LockName, LockName)>::empty());
            assert(base + pairs_of(o) =~= base);
        }
        assert(l.take(i + 1).drop_last() =~= l.take(i as int));
        assert(l.take(i + 1).last() == o);
    }
    assert(l.take(n as int) =~= l);
    assert(nv.len() == names.len());
    solver
}

/// A Z3 solver that holds, in order, one constraint `var_i < var_j` per pair
/// of consecutive locks of an ordering, where each lock's variable
/// is its position among the distinct lock names in order of first occurrence.
pub fn build_solver(lst: &Vec<Vec<String>>) -> (solver: z3::Solver)
    ensures
        dedup(all_names(lst.deep_view())).len() <= usize::MAX,
        solver_constraints(solver) == index_constraints(
            dedup(all_names(lst.deep_view())),
            order_pairs(lst.deep_view()),
        ),
{
    let cs = constraint_pairs(lst);
    solver_of(&cs)
}

/// A Z3 solver that holds the constraints `cs`, in order.
fn solver_of(cs: &Vec<(u64, u64)>) -> (solver: z3::Solver)
    ensures
        solver_constraints(solver) == cs@,
{
    let mut solver = new_solver();
    assert(cs@.take(0) =~= Seq::<(u64, u64)>::empty());
    for k in 0..cs.len()
        invariant
            solver_constraints(solver) == cs@.take(k as int),
    {
        assert_less_than(&mut solver, cs[k].0, cs[k].1);
        assert(cs@.take(k + 1) =~= cs@.take(k as int).push(cs@[k as int]));
    }
    assert(cs@.take(cs@.len() as int) =~= cs@);
    solver
}

/// The distinct lock names hold both locks of every constraint, once each.
proof fn lemma_variables_cover_pairs(l: LockSeqs)
    ensures
        dedup(all_names(l)).no_duplicates(),
        forall|k: int|
            0 <= k < order_pairs(l).len() ==> dedup(all_names(l)).contains(
                #[trigger] order_pairs(l)[k].0,
            ) && dedup(all_names(l)).contains(order_pairs(l)[k].1),
{
    let nv = dedup(all_names(l));
    lemma_dedup_no_duplicates(all_names(l));
    let pairs = order_pairs(l);
    assert forall|k: int| 0 <= k < pairs.len() implies nv.contains(#[trigger] pairs[k].0)
        && nv.contains(pairs[k].1) by {
        lemma_order_pairs_names(l, k);
        lemma_dedup_contains(all_names(l), pairs[k].0);
        lemma_dedup_contains(all_names(l), pairs[k].1);
    }
}

/// How many entries of `s` are `true`.
pub open spec fn count_true(s: Seq<bool>) -> nat
    decreases s.len(),
{
    if s.len() == 0 {
        0
    } else {
        count_true(s.drop_last()) + if s.last() {
            1nat
        } else {
            0nat
        }
    }
}

proof fn lemma_count_update(s: Seq<bool>, w: int)
    requires
        0 <= w < s.len(),
        !s[w],
    ensures
        count_true(s.update(w, true)) == count_true(s) + 1,
    decreases s.len(),
{
    let t = s.update(w, true);
    if w == s.len() - 1 {
        assert(t.drop_last() =~= s.drop_last());
    } else {
        lemma_count_update(s.drop_last(), w);
        assert(t.drop_last() =~= s.drop_last().update(w, true));
    }
}

proof fn lemma_count_bound(s: Seq<bool>)
    ensures
        count_true(s) <= s.len(),
        count_true(s) == s.len() ==> forall|i: int| 0 <= i < s.len() ==> #[trigger] s[i],
    decreases s.len(),
{
    if s.len() > 0 {
        lemma_count_bound(s.drop_last());
        if count_true(s) == s.len() {
            assert forall|i: int| 0 <= i < s.len() implies #[trigger] s[i] by {
                if i < s.len() - 1 {
                    assert(s.drop_last()[i] == s[i]);
                }
            }
        }
    }
}

/// Whether some constraint `(u, v)` has a variable `u` that is not removed:
/// `v` must still wait for it.
pub open spec fn blocked(cs: Seq<(u64, u64)>, removed: Seq<bool>, v: int) -> bool {
    exists|k: int| 0 <= k < cs.len() && #[trigger] cs[k].1 == v && !removed[cs[k].0 as int]
}

/// Whether variable `v` must still wait for a variable that is not removed.
fn has_blocker(cs: &Vec<(u64, u64)>, removed: &Vec<bool>, v: u64) -> (r: bool)
    requires
        forall|k: int| 0 <= k < cs.len() ==> (#[trigger] cs@[k]).0 < removed.len(),
    ensures
        r == blocked(cs@, removed@, v as int),
{
    for k in 0..cs.len()
        invariant
            forall|k: int| 0 <= k < cs.len() ==> (#[trigger] cs@[k]).0 < removed.len(),
            forall|j: int| 0 <= j < k ==> !(#[trigger] cs@[j].1 == v && !removed@[cs@[j].0 as int]),
    {
        if cs[k].1 == v && !removed[cs[k].0 as usize] {
            return true;
        }
    }
    false
}

/// A variable that is not removed and whose value under `val` is least among
/// the first `t` that are not removed.
proof fn lemma_least_remaining(removed: Seq<bool>, val: spec_fn(u64) -> int, t: int) -> (m: int)
    requires
        0 < t <= removed.len(),
        exists|j: int| 0 <= j < t && !removed[j],
    ensures
        0 <= m < t,
        !removed[m],
        forall|j: int| 0 <= j < t && !removed[j] ==> val(m as u64) <= val(j as u64),
    decreases t,
{
    if exists|j: int| 0 <= j < t - 1 && !removed[j] {
        let m0 = lemma_least_remaining(removed, val, t - 1);
        if !removed[t - 1] && val((t - 1) as u64) < val(m0 as u64) {
            t - 1
        } else {
            m0
        }
    } else {
        t - 1
    }
}

/// Decides whether the constraints `var_i < var_j` over the variables
/// `0..n` have a solution, by removing, one at a time, a variable that no
/// constraint from a remaining variable points to: all variables are removed
/// exactly when a solution exists (the removal order is one).
pub fn order_exists_by_removal(cs: &Vec<(u64, u64)>, n: usize) -> (r: bool)
    requires
        forall|k: int| 0 <= k < cs.len() ==> (#[trigger] cs@[k]).0 < n && cs@[k].1 < n,
    ensures
        r == constraints_satisfiable(cs@),
{
    let mut removed: Vec<bool> = Vec::new();
    let mut pos: Vec<u64> = Vec::new();
    for i in 0..n
        invariant
            removed.len() == i,
            pos.len() == i,
            forall|j: int| 0 <= j < i ==> !(#[trigger] removed@[j]),
    {
        removed.push(false);
        pos.push(0);
    }
    let mut count: usize = 0;
    assert(count_true(removed@) == 0) by {
        assert forall|t: int| 0 <= t <= n implies count_true(#[trigger] removed@.take(t)) == 0 by {
            lemma_count_zero(removed@, t);
        }
        assert(removed@.take(n as int) =~= removed@);
    }
    loop
        invariant
            removed.len() == n,
            pos.len() == n,
            forall|k: int| 0 <= k < cs.len() ==> (#[trigger] cs@[k]).0 < n && cs@[k].1 < n,
            count == count_true(removed@),
            count <= n,
            forall|v: int| 0 <= v < n && #[trigger] removed@[v] ==> pos@[v] < count,
            forall|k: int|
                0 <= k < cs.len() && removed@[(#[trigger] cs@[k]).1 as int] ==> removed@[cs@[k].0 as int]
                    && pos@[cs@[k].0 as int] < pos@[cs@[k].1 as int],
        decreases n - count,
    {
        proof {
            lemma_count_bound(removed@);
        }
        let mut found: Option<usize> = None;
        for v in 0..n
            invariant
                removed.len() == n,
                forall|k: int| 0 <= k < cs.len() ==> (#[trigger] cs@[k]).0 < n && cs@[k].1 < n,
                found matches Some(w) ==> w < n && !removed@[w as int] && !blocked(
                    cs@,
                    removed@,
                    w as int,
                ),
                found is None ==> forall|u: int|
                    0 <= u < v ==> #[trigger] removed@[u] || blocked(cs@, removed@, u),
        {
            if found.is_none() && !removed[v] && !has_blocker(cs, &removed, v as u64) {
                found = Some(v);
            }
        }
        match found {
            None => {
                if count == n {
                    let ghost val = |i: u64| pos@[i as int] as int;
                    assert forall|k: int| 0 <= k < cs@.len() implies #[trigger] val(cs@[k].0) < val(
                        cs@[k].1,
                    ) by {
                        assert(removed@[cs@[k].1 as int]);
                    }
                    assert(solves(cs@, val));
                    return true;
                } else {
                    proof {
                        let u = choose|u: int| 0 <= u < n && !removed@[u];
                        assert(exists|u: int| 0 <= u < n && !removed@[u]) by {
                            if forall|u: int| 0 <= u < n ==> removed@[u] {
                                lemma_count_all(removed@);
                            }
                        }
                        if constraints_satisfiable(cs@) {
                            let val = choose|val: spec_fn(u64) -> int| solves(cs@, val);
                            let m = lemma_least_remaining(removed@, val, n as int);
                            assert(removed@[m] || blocked(cs@, removed@, m));
                            let k = choose|k: int|
                                0 <= k < cs@.len() && #[trigger] cs@[k].1 == m && !removed@[cs@[k].0 as int];
                            assert(val(cs@[k].0) < val(cs@[k].1));
                            assert(val(m as u64) <= val(cs@[k].0));
                        }
                    }
                    return false;
                }
            },
            Some(w) => {
                proof {
                    lemma_count_update(removed@, w as int);
                    if count == n {
                        lemma_count_bound(removed@);
                        assert(removed@[w as int]);
                    }
                }
                let ghost before = removed@;
                removed.set(w, true);
                pos.set(w, count as u64);
                assert forall|k: int|
                    0 <= k < cs.len() && removed@[(#[trigger] cs@[k]).1 as int] implies removed@[cs@[k].0 as int]
                        && pos@[cs@[k].0 as int] < pos@[cs@[k].1 as int] by {
                    if cs@[k].1 == w {
                        assert(!blocked(cs@, before, w as int));
                        assert(before[cs@[k].0 as int]);
                    } else {
                        assert(before[cs@[k].1 as int]);
                        if cs@[k].0 == w {
                            assert(before[cs@[k].0 as int]);
                        }
                    }
                }
                count = count + 1;
            },
        }
    }
}

proof fn lemma_count_zero(s: Seq<bool>, t: int)
    requires
        0 <= t <= s.len(),
        forall|j: int| 0 <= j < s.len() ==> !(#[trigger] s[j]),
    ensures
        count_true(s.take(t)) == 0,
    decreases t,
{
    if t > 0 {
        lemma_count_zero(s, t - 1);
        assert(s.take(t).drop_last() =~= s.take(t - 1));
    }
}

proof fn lemma_count_all(s: Seq<bool>)
    requires
        forall|j: int| 0 <= j < s.len() ==> #[trigger] s[j],
    ensures
        count_true(s) == s.len(),
    decreases s.len(),
{
    if s.len() > 0 {
        lemma_count_all(s.drop_last());
    }
}

/// The constraints name variables below the number of distinct lock names.
proof fn lemma_constraints_in_range(l: LockSeqs, cs: Seq<(u64, u64)>)
    requires
        dedup(all_names(l)).len() <= usize::MAX,
        cs == index_constraints(dedup(all_names(l)), order_pairs(l)),
    ensures
        forall|k: int|
            0 <= k < cs.len() ==> (#[trigger] cs[k]).0 < dedup(all_names(l)).len() && cs[k].1
                < dedup(all_names(l)).len(),
{
    let names = dedup(all_names(l));
    lemma_variables_cover_pairs(l);
    assert forall|x: LockName| names.contains(x) implies 0 <= #[trigger] names.index_of(x) < names.len() by {
        let j = choose|j: int| 0 <= j < names.len() && names[j] == x;
        assert(names[j] == x);
    }
    assert forall|k: int| 0 <= k < cs.len() implies (#[trigger] cs[k]).0 < names.len() && cs[k].1
        < names.len() by {
        let p = order_pairs(l)[k];
        assert(names.contains(p.0) && names.contains(p.1));
    }
}

/// Whether the orderings of all threads admit one global lock order, decided
/// by Z3; where Z3 gives up, the constraints are decided by removing locks
/// in an order that respects them.
///
/// `Sat` is returned exactly when some rank of the locks puts, in every
/// ordering, each lock below the lock acquired next, and `Unsat` exactly when
/// no such rank exists; the answer is never `Unknown`.
pub fn solve_constraints(lst: &Vec<Vec<String>>) -> (r: Satisfiability)
    ensures
        r == Satisfiability::Sat <==> lock_order_exists(lst.deep_view()),
        r == Satisfiability::Unsat <==> !lock_order_exists(lst.deep_view()),
{
    let ghost l = lst.deep_view();
    let cs = constraint_pairs(lst);
    let solver = solver_of(&cs);
    proof {
        lemma_variables_cover_pairs(l);
        lemma_constraints_match(dedup(all_names(l)), order_pairs(l));
        lemma_constraints_in_range(l, cs@);
    }
    match check_solver(&solver) {
        Satisfiability::Sat => Satisfiability::Sat,
        Satisfiability::Unsat => Satisfiability::Unsat,
        Satisfiability::Unknown => {
            let names = lock_variables(lst);
            if order_exists_by_removal(&cs, names.len()) {
                Satisfiability::Sat
            } else {
                Satisfiability::Unsat
            }
        },
    }
}

} // verus!
