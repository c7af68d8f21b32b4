//! Lock orderings and their multiplicative combination.
//!
//! An *ordering* is the sequence of lock names one path through a thread
//! acquires, in program order. A set of alternative paths is a list of
//! orderings. Running one piece of code after another combines the two lists
//! multiplicatively: every path of the first is followed by every path of the
//! second.
use vstd::prelude::*;

verus! {

/// The mathematical value of a lock name.
pub type LockName = Seq<char>;

/// The mathematical value of one ordering.
pub type LockSeq = Seq<LockName>;

/// The mathematical value of a list of orderings.
pub type LockSeqs = Seq<LockSeq>;

/// Every ordering of `first` followed by every ordering of `second`,
/// in row-major order (the orderings of `first` vary slowest).
pub open spec fn product(first: LockSeqs, second: LockSeqs) -> LockSeqs
    decreases first.len(),
{
    if first.len() == 0 {
        Seq::empty()
    } else {
        product(first.drop_last(), second) + second.map_values(
            |b: LockSeq| first.last() + b,
        )
    }
}

/// What `extend_orderings` computes: an empty side is neutral, otherwise
/// the product of the two sides.
pub open spec fn extend_spec(first: LockSeqs, second: LockSeqs) -> LockSeqs {
    if second.len() == 0 {
        first
    } else if first.len() == 0 {
        second
    } else {
        product(first, second)
    }
}

/// Copies one ordering.
pub fn clone_ordering(o: &Vec<String>) -> (r: Vec<String>)
    ensures
        r.deep_view() == o.deep_view(),
{
    let mut r: Vec<String> = Vec::new();
    let n = o.len();
    for i in 0..n
        invariant
            n == o.len(),
            r.len() == i,
            forall|k: int| 0 <= k < i ==> #[trigger] r@[k]@ == o@[k]@,
    {
        r.push(o[i].clone());
    }
    assert(r.deep_view() =~= o.deep_view());
    r
}

/// Appends a copy of `tail` to `head`.
pub fn append_ordering(head: &mut Vec<String>, tail: &Vec<String>)
    ensures
        final(head).deep_view() == old(head).deep_view() + tail.deep_view(),
{
    let ghost h0 = head.deep_view();
    let n = tail.len();
    for i in 0..n
        invariant
            n == tail.len(),
            head.deep_view() =~= h0 + tail.deep_view().take(i as int),
    {
        let ghost prev = head.deep_view();
        head.push(tail[i].clone());
        assert(head.deep_view() =~= prev.push(tail@[i as int]@));
        assert(tail.deep_view().take(i + 1) =~= tail.deep_view().take(i as int).push(tail@[i as int]@));
    }
    assert(tail.deep_view().take(n as int) =~= tail.deep_view());
}

/// Combines the orderings of two consecutive pieces of code.
///
/// If one side is empty the other is returned; otherwise every ordering of
/// `first` is followed by every ordering of `second`. For example
/// `[["a", "b"]]` and `[["b"], ["c"]]` give `[["a", "b", "b"], ["a", "b", "c"]]`.
pub fn extend_orderings(first: Vec<Vec<String>>, second: Vec<Vec<String>>) -> (r: Vec<Vec<String>>)
    ensures
        r.deep_view() == extend_spec(first.deep_view(), second.deep_view()),
{
    if second.len() == 0 {
        return first;
    }
    if first.len() == 0 {
        return second;
    }
    let ghost f = first.deep_view();
    let ghost s = second.deep_view();
    let mut final_lst: Vec<Vec<String>> = Vec::new();
    let n = first.len();
    let m = second.len();
    for i in 0..n
        invariant
            n == first.len(),
            m == second.len(),
            f == first.deep_view(),
            s == second.deep_view(),
            final_lst.deep_view() =~= product(f.take(i as int), s),
    {
        let ghost before = final_lst.deep_view();
        for j in 0..m
            invariant
                n == first.len(),
                m == second.len(),
                i < n,
                f == first.deep_view(),
                s == second.deep_view(),
                final_lst.deep_view() =~= before + s.take(j as int).map_values(
                    |b: LockSeq| f[i as int] + b,
                ),
        {
            let mut temp1 = clone_ordering(&first[i]);
            append_ordering(&mut temp1, &second[j]);
            let ghost prev = final_lst.deep_view();
            final_lst.push(temp1);
            assert(final_lst.deep_view() =~= prev.push(f[i as int] + s[j as int]));
            assert(s.take(j + 1) =~= s.take(j as int).push(s[j as int]));
            assert(s.take(j + 1).map_values(|b: LockSeq| f[i as int] + b) =~= s.take(
                j as int,
            ).map_values(|b: LockSeq| f[i as int] + b).push(f[i as int] + s[j as int]));
        }
        assert(s.take(m as int) =~= s);
        assert(f.take(i + 1).drop_last() =~= f.take(i as int));
        assert(f.take(i + 1).last() == f[i as int]);
    }
    assert(f.take(n as int) =~= f);
    final_lst
}

/// The product has one ordering per pair, and the ordering at position
/// `a * |second| + b` is `first[a]` followed by `second[b]`.
pub proof fn lemma_product_index(first: LockSeqs, second: LockSeqs)
    ensures
        product(first, second).len() == first.len() * second.len(),
        forall|a: int, b: int|
            0 <= a < first.len() && 0 <= b < second.len() ==> product(first, second)[a
                * second.len() + b] == #[trigger] first[a] + #[trigger] second[b],
    decreases first.len(),
{
    if first.len() > 0 {
        let f0 = first.drop_last();
        lemma_product_index(f0, second);
        let n = second.len();
        assert(first.len() * n == f0.len() * n + n) by (nonlinear_arith)
            requires
                first.len() == f0.len() + 1,
        ;
        assert forall|a: int, b: int| 0 <= a < first.len() && 0 <= b < n implies product(
            first,
            second,
        )[a * n + b] == #[trigger] first[a] + #[trigger] second[b] by {
            if a < f0.len() {
                assert(a * n + b < f0.len() * n) by (nonlinear_arith)
                    requires
                        a < f0.len(),
                        b < n,
                ;
                assert(first[a] == f0[a]);
            } else {
                assert(a * n == f0.len() * n);
            }
        }
    }
}

/// Every lock of every ordering of `lst` is one of `locks`.
pub open spec fn within(lst: LockSeqs, locks: Seq<LockName>) -> bool {
    forall|i: int, k: int|
        0 <= i < lst.len() && 0 <= k < lst[i].len() ==> locks.contains(#[trigger] lst[i][k])
}

/// Concatenation and combination keep the locks among `locks`.
pub proof fn lemma_within_extend(a: LockSeqs, b: LockSeqs, locks: Seq<LockName>)
    requires
        within(a, locks),
        within(b, locks),
    ensures
        within(a + b, locks),
        within(extend_spec(a, b), locks),
        within(product(a, b), locks),
    decreases a.len(),
{
    assert forall|i: int, k: int| 0 <= i < (a + b).len() && 0 <= k < (a + b)[i].len() implies locks.contains(
        #[trigger] (a + b)[i][k],
    ) by {
        if i < a.len() {
            assert((a + b)[i] == a[i]);
        } else {
            assert((a + b)[i] == b[i - a.len()]);
        }
    }
    if a.len() > 0 {
        lemma_within_extend(a.drop_last(), b, locks);
        let row = b.map_values(|o: LockSeq| a.last() + o);
        assert forall|i: int, k: int| 0 <= i < row.len() && 0 <= k < row[i].len() implies locks.contains(
            #[trigger] row[i][k],
        ) by {
            if k < a.last().len() {
                assert(row[i][k] == a[a.len() - 1][k]);
            } else {
                assert(row[i][k] == b[i][k - a.last().len()]);
            }
        }
        let p0 = product(a.drop_last(), b);
        assert forall|i: int, k: int| 0 <= i < (p0 + row).len() && 0 <= k < (p0 + row)[i].len() implies locks.contains(
            #[trigger] (p0 + row)[i][k],
        ) by {
            if i < p0.len() {
                assert((p0 + row)[i] == p0[i]);
            } else {
                assert((p0 + row)[i] == row[i - p0.len()]);
            }
        }
    } else {
        assert(product(a, b) =~= Seq::<LockSeq>::empty());
    }
}

/// The empty list is neutral on both sides of `extend_orderings`.
pub proof fn lemma_extend_identity(x: LockSeqs)
    ensures
        extend_spec(x, Seq::empty()) == x,
        extend_spec(Seq::empty(), x) == x,
{
}

/// Product distributes over concatenation on the left.
proof fn lemma_product_concat(p: LockSeqs, q: LockSeqs, c: LockSeqs)
    ensures
        product(p + q, c) == product(p, c) + product(q, c),
    decreases q.len(),
{
    if q.len() == 0 {
        assert(p + q =~= p);
        assert(product(p, c) + product(q, c) =~= product(p, c));
    } else {
        lemma_product_concat(p, q.drop_last(), c);
        assert((p + q).drop_last() =~= p + q.drop_last());
        assert((p + q).last() == q.last());
        assert(product(p + q, c) =~= product(p, c) + product(q, c));
    }
}

/// Prefixing every ordering of the left side by `x` commutes with the product.
proof fn lemma_product_prefix(x: LockSeq, s: LockSeqs, c: LockSeqs)
    ensures
        product(s.map_values(|b: LockSeq| x + b), c) == product(s, c).map_values(
            |b: LockSeq| x + b,
        ),
    decreases s.len(),
{
    let sx = s.map_values(|b: LockSeq| x + b);
    if s.len() == 0 {
        assert(product(sx, c) =~= product(s, c).map_values(|b: LockSeq| x + b));
    } else {
        lemma_product_prefix(x, s.drop_last(), c);
        assert(sx.drop_last() =~= s.drop_last().map_values(|b: LockSeq| x + b));
        assert(sx.last() == x + s.last());
        let lhs_row = c.map_values(|b: LockSeq| sx.last() + b);
        let rhs_row = c.map_values(|b: LockSeq| s.last() + b).map_values(
            |b: LockSeq| x + b,
        );
        assert forall|k: int| 0 <= k < c.len() implies lhs_row[k] == rhs_row[k] by {
            assert((x + s.last()) + c[k] =~= x + (s.last() + c[k]));
        }
        assert(lhs_row =~= rhs_row);
        assert(product(sx, c) =~= product(s, c).map_values(|b: LockSeq| x + b));
    }
}

/// Product is associative.
proof fn lemma_product_assoc(a: LockSeqs, b: LockSeqs, c: LockSeqs)
    ensures
        product(product(a, b), c) == product(a, product(b, c)),
    decreases a.len(),
{
    if a.len() == 0 {
        assert(product(product(a, b), c) =~= product(a, product(b, c)));
    } else {
        let a0 = a.drop_last();
        let x = a.last();
        lemma_product_assoc(a0, b, c);
        lemma_product_concat(product(a0, b), b.map_values(|o: LockSeq| x + o), c);
        lemma_product_prefix(x, b, c);
    }
}

/// Combining three consecutive pieces of code does not depend on how the
/// combination is grouped.
pub proof fn lemma_extend_assoc(a: LockSeqs, b: LockSeqs, c: LockSeqs)
    ensures
        extend_spec(extend_spec(a, b), c) == extend_spec(a, extend_spec(b, c)),
{
    if a.len() > 0 && b.len() > 0 {
        lemma_product_index(a, b);
        assert(a.len() * b.len() > 0) by (nonlinear_arith)
            requires
                a.len() > 0,
                b.len() > 0,
        ;
    }
    if b.len() > 0 && c.len() > 0 {
        lemma_product_index(b, c);
        assert(b.len() * c.len() > 0) by (nonlinear_arith)
            requires
                b.len() > 0,
                c.len() > 0,
        ;
    }
    if a.len() > 0 && b.len() > 0 && c.len() > 0 {
        lemma_product_assoc(a, b, c);
    }
}

/// Whether the lock `x` occurs in some ordering of `lst`.
pub open spec fn recorded(lst: LockSeqs, x: LockName) -> bool {
    exists|i: int, k: int| 0 <= i < lst.len() && 0 <= k < lst[i].len() && #[trigger] lst[i][k] == x
}

/// Concatenating and combining lists of orderings keeps every lock that
/// occurs in either side.
pub proof fn lemma_recorded_extend(a: LockSeqs, b: LockSeqs, x: LockName)
    requires
        recorded(a, x) || recorded(b, x),
    ensures
        recorded(a + b, x),
        recorded(extend_spec(a, b), x),
{
    if recorded(a, x) {
        let (i, k) = choose|i: int, k: int|
            0 <= i < a.len() && 0 <= k < a[i].len() && #[trigger] a[i][k] == x;
        assert((a + b)[i][k] == x);
        if b.len() > 0 {
            lemma_product_index(a, b);
            let n = b.len();
            assert(0 <= i * n && i * n < a.len() * n) by (nonlinear_arith)
                requires
                    0 <= i < a.len(),
                    n > 0,
            ;
            assert(product(a, b)[i * n + 0] == a[i] + b[0]);
            assert(product(a, b)[i * n][k] == x);
        }
    } else {
        let (j, k) = choose|j: int, k: int|
            0 <= j < b.len() && 0 <= k < b[j].len() && #[trigger] b[j][k] == x;
        assert((a + b)[a.len() + j][k] == x);
        if a.len() > 0 {
            lemma_product_index(a, b);
            let n = b.len();
            assert(0 * n + j == j) by (nonlinear_arith);
            assert(product(a, b)[0 * n + j] == a[0] + b[j]);
            assert(product(a, b)[j][a[0].len() + k] == x);
        }
    }
}

} // verus!
